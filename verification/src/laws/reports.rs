//! What becomes of what replicas say.
use vstd::prelude::*;

use super::accounts::{law_capabilities_change_alone, same_but_capabilities};
use super::commands::{only_adds, same_identity};
use super::growth::law_uppers_add_nothing;
use super::told::lemma_pick_is_picked;
use crate::action::ActionModel;
use crate::collection::CollectionModel;
use crate::command::OpenTelemetryContext;
use crate::frontier::{frontier_le, frontier_lt, reaches, Frontier};
use crate::model::{reports, InstanceModel, UpperUpdate};
use crate::ordered::lemma_picked;
use crate::policy::{FrontierLogic, PolicyModel};
use crate::response::{
    ComputeResponseModel, ControllerResponseModel, PeekResponseModel, SubscribeBatchModel,
    SubscribeResponseModel,
};

verus! {

/// The read frontier that a policy asks for where the write frontier is `upper`.
pub open spec fn asked_by_policy<L: FrontierLogic>(
    policy: PolicyModel<L>,
    upper: Frontier,
) -> Frontier {
    match policy {
        PolicyModel::ValidFrom(frontier) => frontier,
        PolicyModel::LagWriteFrontier(logic) => logic.answer(upper),
    }
}

/// Whether `after` is what a collection becomes, its read capabilities aside, when `replica`
/// reports `upper`: that is what the replica has reported, the write frontier is `upper` if that
/// is beyond what it was, and the capability that the policy implies follows, unless that would
/// be a step back.
pub open spec fn report_taken_in<L: FrontierLogic>(
    before: CollectionModel<L>,
    after: CollectionModel<L>,
    replica: u64,
    upper: Frontier,
) -> bool {
    let asked = asked_by_policy(before.read_policy, after.write_frontier);
    &&& after.replica_write_frontiers == before.replica_write_frontiers.insert(replica, upper)
    &&& after.write_frontier == if frontier_lt(before.write_frontier, upper) {
        upper
    } else {
        before.write_frontier
    }
    &&& after.implied_capability == if frontier_le(before.implied_capability, asked) {
        asked
    } else {
        before.implied_capability
    }
    &&& after.read_policy == before.read_policy
    &&& after.storage_dependencies == before.storage_dependencies
    &&& after.compute_dependencies == before.compute_dependencies
    &&& after.log_collection == before.log_collection
}

/// Whether nothing of a collection changed but its read capabilities.
pub open spec fn report_of_others<L>(
    before: CollectionModel<L>,
    after: CollectionModel<L>,
) -> bool {
    &&& after.replica_write_frontiers == before.replica_write_frontiers
    &&& after.write_frontier == before.write_frontier
    &&& after.implied_capability == before.implied_capability
    &&& after.read_policy == before.read_policy
    &&& after.storage_dependencies == before.storage_dependencies
    &&& after.compute_dependencies == before.compute_dependencies
    &&& after.log_collection == before.log_collection
}

/// Whether the list names `id`.
pub open spec fn names(uppers: Seq<(u64, Frontier)>, id: u64) -> bool {
    exists|i: int| 0 <= i < uppers.len() && (#[trigger] uppers[i]).0 == id
}

/// Whether the list names `id` at `i` and nowhere else.
pub open spec fn names_once(uppers: Seq<(u64, Frontier)>, id: u64, i: int) -> bool {
    &&& 0 <= i < uppers.len()
    &&& uppers[i].0 == id
    &&& forall|j: int| 0 <= j < uppers.len() && j != i ==> (#[trigger] uppers[j]).0 != id
}

/// A collection that a list names once takes that report in; one that it does not name takes
/// none in. `picked` says which reports of the list count.
pub proof fn lemma_absorbs<L: FrontierLogic>(
    start: UpperUpdate<L>,
    replica: u64,
    uppers: Seq<(u64, Frontier)>,
    picked: spec_fn((u64, Frontier)) -> bool,
    id: u64,
)
    requires
        start.collections.contains_key(id),
        forall|i: int|
            0 <= i < uppers.len() && (#[trigger] uppers[i]).0 == id ==> picked(uppers[i]),
        start.advanced.len() == 0 && start.finished.len() == 0,
    ensures
        ({
            let end = start.absorb_all(replica, uppers.filter(picked));
            let before = start.collections[id];
            &&& end.collections.contains_key(id)
            &&& end.collections[id].read_capabilities == before.read_capabilities
            &&& !names(uppers, id) ==> end.collections[id] == before && !end.advanced.contains(id)
                && !end.finished.contains(id)
            &&& forall|i: int|
                #![trigger names_once(uppers, id, i)]
                names_once(uppers, id, i) ==> {
                    &&& report_taken_in(before, end.collections[id], replica, uppers[i].1)
                    &&& end.advanced.contains(id) <==> frontier_lt(
                        before.write_frontier,
                        uppers[i].1,
                    )
                    &&& end.finished.contains(id) <==> uppers[i].1.len() == 0
                }
        }),
    decreases uppers.len(),
{
    reveal(Seq::filter);
    if uppers.len() > 0 {
        let front = uppers.drop_last();
        let last = uppers[uppers.len() - 1];
        assert forall|i: int| 0 <= i < front.len() && (#[trigger] front[i]).0 == id implies picked(
            front[i],
        ) by {
            assert(front[i] == uppers[i]);
        }
        lemma_absorbs(start, replica, front, picked, id);
        let before = start.absorb_all(replica, front.filter(picked));
        let end = start.absorb_all(replica, uppers.filter(picked));
        if picked(last) {
            assert(uppers.filter(picked) =~= front.filter(picked).push(last));
            assert(uppers.filter(picked).drop_last() =~= front.filter(picked));
            assert(end == before.absorb(replica, last.0, last.1));
            assert forall|other: u64| end.advanced.contains(other) <==> before.advanced.contains(
                other,
            ) || (other == last.0 && frontier_lt(
                before.collections[last.0].write_frontier,
                last.1,
            )) by {
                lemma_pushed(before.advanced, last.0, other);
            }
            assert forall|other: u64| end.finished.contains(other) <==> before.finished.contains(
                other,
            ) || (other == last.0 && last.1.len() == 0) by {
                lemma_pushed(before.finished, last.0, other);
            }
        } else {
            assert(uppers.filter(picked) =~= front.filter(picked));
        }
        assert(names(front, id) ==> names(uppers, id)) by {
            if names(front, id) {
                let j = choose|j: int| 0 <= j < front.len() && (#[trigger] front[j]).0 == id;
                assert(uppers[j].0 == id);
            }
        }
        if !names(uppers, id) {
            assert(last.0 != id);
        }
        assert forall|i: int|
            #![trigger names_once(uppers, id, i)]
            names_once(uppers, id, i) implies {
            &&& report_taken_in(start.collections[id], end.collections[id], replica, uppers[i].1)
            &&& end.advanced.contains(id) <==> frontier_lt(
                start.collections[id].write_frontier,
                uppers[i].1,
            )
            &&& end.finished.contains(id) <==> uppers[i].1.len() == 0
        } by {
            if i < front.len() {
                assert(last.0 != id);
                assert(front[i] == uppers[i]);
                assert forall|j: int| 0 <= j < front.len() && j != i implies (#[trigger] front[j]).0
                    != id by {
                    assert(front[j] == uppers[j]);
                }
                assert(names_once(front, id, i));
            } else {
                assert(picked(uppers[i]));
                assert(!names(front, id)) by {
                    if names(front, id) {
                        let j = choose|j: int|
                            0 <= j < front.len() && (#[trigger] front[j]).0 == id;
                        assert(uppers[j].0 == id);
                    }
                }
            }
        }
    }
}

/// A list of which everything is picked is the part that is picked out.
pub proof fn lemma_filter_all<A>(list: Seq<A>, picked: spec_fn(A) -> bool)
    requires
        forall|i: int| 0 <= i < list.len() ==> picked(#[trigger] list[i]),
    ensures
        list.filter(picked) == list,
    decreases list.len(),
{
    reveal(Seq::filter);
    if list.len() > 0 {
        let front = list.drop_last();
        assert forall|i: int| 0 <= i < front.len() implies picked(#[trigger] front[i]) by {
            assert(front[i] == list[i]);
        }
        lemma_filter_all(front, picked);
        assert(picked(list[list.len() - 1]));
        assert(front.push(list.last()) =~= list);
    } else {
        assert(list.filter(picked) =~= list);
    }
}

/// What a list with one more holds.
proof fn lemma_pushed(list: Seq<u64>, last: u64, id: u64)
    ensures
        list.push(last).contains(id) <==> list.contains(id) || id == last,
{
    crate::ordered::lemma_push_to_set(list, last);
    assert(list.push(last).to_set().contains(id) <==> list.to_set().insert(last).contains(id));
}

/// Where a replica reports write frontiers, each tracked collection that the list names once
/// takes its report in, whatever kind of collection it is, and each that it does not name stays
/// as it was, read capabilities aside. A collection goes only when all replicas have reported
/// that they are done with it; one that this replica is done with goes if all are and nobody
/// reads it. Nothing is passed on, and nothing of the instance changes but its collections.
pub proof fn law_reports_are_taken_in<P, L: FrontierLogic>(
    state: InstanceModel<P, L>,
    storage_ids: Set<u64>,
    replica: u64,
    uppers: Seq<(u64, Frontier)>,
    id: u64,
)
    requires
        state.collections.contains_key(id),
    ensures
        ({
            let (after, answer) = state.handle_response(
                storage_ids,
                ComputeResponseModel::FrontierUppers(uppers),
                replica,
            );
            let before = state.collections[id];
            let now = after.collections[id];
            &&& answer is None
            &&& after.collections.dom().subset_of(state.collections.dom())
            &&& !names(uppers, id) && after.collections.contains_key(id) ==> report_of_others(
                before,
                now,
            )
            &&& !names(uppers, id) && !after.collections.contains_key(id) ==> all_done(before)
            &&& forall|i: int|
                #![trigger names_once(uppers, id, i)]
                names_once(uppers, id, i) ==> {
                    &&& after.collections.contains_key(id) ==> report_taken_in(
                        before,
                        now,
                        replica,
                        uppers[i].1,
                    )
                    &&& !after.collections.contains_key(id) ==> uppers[i].1.len() == 0
                        && all_done_but(before, replica)
                    &&& uppers[i].1.len() == 0 && after.collections.contains_key(id) ==> !all_done(
                        now,
                    ) || now.read_frontier().len() > 0
                }
        }),
{
    let picked = |upper: (u64, Frontier)| state.collections.contains_key(upper.0);
    let known = uppers.filter(picked);
    assert(known == state.tracked_uppers(uppers));
    let start = state.absorbed(replica, Seq::empty());
    let update = state.absorbed(replica, known);
    assert(update == start.absorb_all(replica, known));
    lemma_picked(uppers, picked);
    assert(state.tracks(known));
    lemma_absorbs(start, replica, uppers, picked, id);
    law_uppers_add_nothing(state, storage_ids, replica, known);
    let absorbed = InstanceModel { collections: update.collections, spent: update.spent, ..state };
    law_capabilities_change_alone(absorbed, storage_ids, update.capabilities);
    let applied = state.with_uppers(storage_ids, replica, known);
    let after = state.update_write_frontiers(storage_ids, replica, known);
    let settled = absorbed.propagation(update.capabilities).settled(storage_ids).collections;
    assert(absorbed.collections.contains_key(id));
    assert(same_but_capabilities(settled[id], absorbed.collections[id]));
    assert forall|other: u64| after.collections.dom().contains(
        other,
    ) implies state.collections.dom().contains(other) by {
        assert(after.collections.contains_key(other));
    }
    assert forall|i: int|
        #![trigger names_once(uppers, id, i)]
        names_once(uppers, id, i) implies report_taken_in(
        state.collections[id],
        settled[id],
        replica,
        uppers[i].1,
    ) by {
        assert(report_taken_in(
            state.collections[id],
            update.collections[id],
            replica,
            uppers[i].1,
        ));
    }
    if !after.collections.contains_key(id) {
        if applied.collections.contains_key(id) {
            assert(applied.collections[id] == settled[id]);
        }
        assert(settled[id].is_droppable());
        assert(all_done(settled[id]));
        assert forall|i: int|
            #![trigger names_once(uppers, id, i)]
            names_once(uppers, id, i) implies uppers[i].1.len() == 0 && all_done_but(
            state.collections[id],
            replica,
        ) by {
            let reported = settled[id].replica_write_frontiers;
            assert(reported.contains_key(replica));
            assert forall|other: u64| #[trigger]
                state.collections[id].replica_write_frontiers.contains_key(other) && other
                    != replica implies state.collections[id].replica_write_frontiers[other].len()
                == 0 by {
                assert(reported.contains_key(other));
            }
        }
    } else {
        assert(applied.collections.contains_key(id));
        assert(after.collections[id] == settled[id]);
        assert forall|i: int|
            #![trigger names_once(uppers, id, i)]
            names_once(uppers, id, i) && uppers[i].1.len() == 0 implies !all_done(
            after.collections[id],
        ) || after.collections[id].read_frontier().len() > 0 by {
            assert(update.finished.contains(id));
            assert(update.finished.to_set().contains(id));
            if all_done(after.collections[id]) && after.collections[id].read_frontier().len() == 0 {
                assert(applied.collections[id].is_droppable());
            }
        }
    }
}

/// What a replica has reported on a collection is the last of the reports that count; with none,
/// it is what it was.
proof fn lemma_last_report<L: FrontierLogic>(
    start: UpperUpdate<L>,
    replica: u64,
    uppers: Seq<(u64, Frontier)>,
    picked: spec_fn((u64, Frontier)) -> bool,
    id: u64,
)
    requires
        start.collections.contains_key(id),
        forall|i: int|
            0 <= i < uppers.len() && (#[trigger] uppers[i]).0 == id ==> picked(uppers[i]),
    ensures
        ({
            let end = start.absorb_all(replica, uppers.filter(picked)).collections;
            let before = start.collections[id].replica_write_frontiers;
            &&& end.contains_key(id)
            &&& !names(uppers, id) ==> end[id].replica_write_frontiers == before
            &&& forall|i: int|
                #![trigger uppers[i]]
                0 <= i < uppers.len() && uppers[i].0 == id && (forall|j: int|
                    i < j < uppers.len() ==> (#[trigger] uppers[j]).0 != id)
                    ==> end[id].replica_write_frontiers == before.insert(replica, uppers[i].1)
            &&& forall|other: u64|
                other != replica ==> (#[trigger] end[id].replica_write_frontiers.contains_key(other)
                    <==> before.contains_key(other)) && end[id].replica_write_frontiers[other]
                    == before[other]
        }),
    decreases uppers.len(),
{
    reveal(Seq::filter);
    if uppers.len() > 0 {
        let front = uppers.drop_last();
        let last = uppers[uppers.len() - 1];
        assert forall|i: int| 0 <= i < front.len() && (#[trigger] front[i]).0 == id implies picked(
            front[i],
        ) by {
            assert(front[i] == uppers[i]);
        }
        lemma_last_report(start, replica, front, picked, id);
        let before = start.absorb_all(replica, front.filter(picked));
        let end = start.absorb_all(replica, uppers.filter(picked));
        if picked(last) {
            assert(uppers.filter(picked) =~= front.filter(picked).push(last));
            assert(uppers.filter(picked).drop_last() =~= front.filter(picked));
            assert(end == before.absorb(replica, last.0, last.1));
        } else {
            assert(uppers.filter(picked) =~= front.filter(picked));
        }
        let reported = start.collections[id].replica_write_frontiers;
        if !names(uppers, id) {
            assert(!names(front, id)) by {
                if names(front, id) {
                    let j = choose|j: int| 0 <= j < front.len() && (#[trigger] front[j]).0 == id;
                    assert(uppers[j].0 == id);
                }
            }
            assert(last.0 != id);
        }
        assert forall|i: int|
            #![trigger uppers[i]]
            0 <= i < uppers.len() && uppers[i].0 == id && (forall|j: int|
                i < j < uppers.len() ==> (#[trigger] uppers[j]).0
                    != id) implies end.collections[id].replica_write_frontiers == reported.insert(
            replica,
            uppers[i].1,
        ) by {
            if i < front.len() {
                assert(last.0 != id);
                assert(front[i] == uppers[i]);
                assert forall|j: int| i < j < front.len() implies (#[trigger] front[j]).0
                    != id by {
                    assert(front[j] == uppers[j]);
                }
            } else {
                let was = before.collections[id].replica_write_frontiers;
                assert(picked(uppers[i]));
                assert(end.collections[id].replica_write_frontiers == was.insert(
                    replica,
                    uppers[i].1,
                ));
                assert(was.insert(replica, uppers[i].1) =~= reported.insert(
                    replica,
                    uppers[i].1,
                )) by {
                    assert forall|other: u64| other != replica implies was.contains_key(other)
                        == reported.contains_key(other) by {}
                }
            }
        }
    }
}

/// Where a list of write frontiers that a replica reports names a tracked collection more than
/// once, the last counts as what the replica has reported; what others have reported stays.
pub proof fn law_last_report_counts<P, L: FrontierLogic>(
    state: InstanceModel<P, L>,
    storage_ids: Set<u64>,
    replica: u64,
    uppers: Seq<(u64, Frontier)>,
    i: int,
)
    requires
        0 <= i < uppers.len(),
        state.collections.contains_key(uppers[i].0),
        forall|j: int| i < j < uppers.len() ==> (#[trigger] uppers[j]).0 != uppers[i].0,
    ensures
        ({
            let id = uppers[i].0;
            let after = state.handle_response(
                storage_ids,
                ComputeResponseModel::FrontierUppers(uppers),
                replica,
            ).0;
            after.collections.contains_key(id) ==> after.collections[id].replica_write_frontiers
                == state.collections[id].replica_write_frontiers.insert(replica, uppers[i].1)
        }),
{
    let id = uppers[i].0;
    let picked = |upper: (u64, Frontier)| state.collections.contains_key(upper.0);
    let start = state.absorbed(replica, Seq::empty());
    let update = state.absorbed(replica, uppers.filter(picked));
    assert(state.tracked_uppers(uppers) == uppers.filter(picked));
    assert(update == start.absorb_all(replica, uppers.filter(picked)));
    lemma_last_report(start, replica, uppers, picked, id);
    let absorbed = InstanceModel { collections: update.collections, spent: update.spent, ..state };
    law_capabilities_change_alone(absorbed, storage_ids, update.capabilities);
    assert(absorbed.collections.contains_key(id));
}

/// Whether all replicas that have reported on a collection are done with it.
pub open spec fn all_done<L>(collection: CollectionModel<L>) -> bool {
    forall|replica: u64| #[trigger]
        collection.replica_write_frontiers.contains_key(replica)
            ==> collection.replica_write_frontiers[replica].len() == 0
}

/// Whether all replicas but `replica` that have reported on a collection are done with it.
pub open spec fn all_done_but<L>(collection: CollectionModel<L>, replica: u64) -> bool {
    forall|other: u64| #[trigger]
        collection.replica_write_frontiers.contains_key(other) && other != replica
            ==> collection.replica_write_frontiers[other].len() == 0
}

/// Whether the frontier of a tracked collection goes to storage: storage knows it, and it is
/// beyond the collection's write frontier.
pub open spec fn concerns_storage<L>(
    collections: Map<u64, CollectionModel<L>>,
    storage_ids: Set<u64>,
    upper: (u64, Frontier),
) -> bool {
    &&& collections.contains_key(upper.0)
    &&& storage_ids.contains(upper.0)
    &&& frontier_lt(collections[upper.0].write_frontier, upper.1)
}

/// Where a replica reports write frontiers, at most one for each collection, storage is told
/// once, at the end: of exactly those that advance a collection that storage knows.
pub proof fn law_storage_learns_of_write_frontiers<P, L: FrontierLogic>(
    state: InstanceModel<P, L>,
    storage_ids: Set<u64>,
    replica: u64,
    uppers: Seq<(u64, Frontier)>,
)
    requires
        forall|i: int, j: int|
            0 <= i < j < uppers.len() ==> (#[trigger] uppers[i]).0 != (#[trigger] uppers[j]).0,
    ensures
        ({
            let after = state.handle_response(
                storage_ids,
                ComputeResponseModel::FrontierUppers(uppers),
                replica,
            ).0;
            &&& after.actions.len() > state.actions.len()
            &&& after.actions[after.actions.len() - 1] matches
                ActionModel::UpdateStorageWriteFrontiers(told) && {
                &&& forall|i: int|
                    0 <= i < uppers.len() && concerns_storage(
                        state.collections,
                        storage_ids,
                        #[trigger] uppers[i],
                    ) ==> told.contains(uppers[i])
                &&& forall|i: int|
                    0 <= i < told.len() ==> uppers.contains(#[trigger] told[i])
                        && concerns_storage(state.collections, storage_ids, told[i])
            }
            &&& forall|i: int|
                state.actions.len() <= i < after.actions.len() - 1 ==> !((
                #[trigger] after.actions[i]) is UpdateStorageWriteFrontiers)
        }),
{
    let picked = |upper: (u64, Frontier)| state.collections.contains_key(upper.0);
    let known = uppers.filter(picked);
    assert(known == state.tracked_uppers(uppers));
    let start = state.absorbed(replica, Seq::empty());
    let update = state.absorbed(replica, known);
    assert(update == start.absorb_all(replica, known));
    lemma_picked(uppers, picked);
    let told = reports(update.collections, update.advanced, storage_ids);
    let after = state.update_write_frontiers(storage_ids, replica, known);
    let by_storage = |id: u64| storage_ids.contains(id);
    let show = |id: u64| (id, update.collections[id].write_frontier);
    assert(after.actions[after.actions.len() - 1]
        == ActionModel::<P>::UpdateStorageWriteFrontiers(told));
    assert forall|i: int|
        0 <= i < uppers.len() && concerns_storage(
            state.collections,
            storage_ids,
            #[trigger] uppers[i],
        ) implies told.contains(uppers[i]) by {
        let id = uppers[i].0;
        assert(names_once(uppers, id, i)) by {
            assert forall|j: int| 0 <= j < uppers.len() && j != i implies (
            #[trigger] uppers[j]).0 != id by {
                if j < i {
                    assert(uppers[j].0 != uppers[i].0);
                } else {
                    assert(uppers[i].0 != uppers[j].0);
                }
            }
        }
        lemma_absorbs(start, replica, uppers, picked, id);
        assert(update.advanced.contains(id));
        let k = choose|k: int| 0 <= k < update.advanced.len() && update.advanced[k] == id;
        lemma_pick_is_picked(update.advanced, by_storage, k);
        let ids = update.advanced.filter(by_storage);
        let m = choose|m: int| 0 <= m < ids.len() && ids[m] == id;
        assert(told[m] == show(ids[m]));
        assert(told[m] == uppers[i]);
    }
    assert forall|i: int| 0 <= i < told.len() implies uppers.contains(#[trigger] told[i])
        && concerns_storage(state.collections, storage_ids, told[i]) by {
        lemma_picked(update.advanced, by_storage);
        let ids = update.advanced.filter(by_storage);
        let id = ids[i];
        assert(told[i] == show(ids[i]));
        assert(update.advanced.contains(id));
        lemma_advanced_named(start, replica, known, id);
        let k = choose|k: int| 0 <= k < known.len() && (#[trigger] known[k]).0 == id;
        assert(uppers.contains(known[k]) && picked(known[k]));
        let j = choose|j: int| 0 <= j < uppers.len() && uppers[j] == known[k];
        assert(names_once(uppers, id, j)) by {
            assert forall|m: int| 0 <= m < uppers.len() && m != j implies (
            #[trigger] uppers[m]).0 != id by {
                if m < j {
                    assert(uppers[m].0 != uppers[j].0);
                } else {
                    assert(uppers[j].0 != uppers[m].0);
                }
            }
        }
        lemma_absorbs(start, replica, uppers, picked, id);
        assert(told[i] == uppers[j]);
    }
}

/// Only collections that are named advance.
proof fn lemma_advanced_named<L: FrontierLogic>(
    start: UpperUpdate<L>,
    replica: u64,
    uppers: Seq<(u64, Frontier)>,
    id: u64,
)
    requires
        start.advanced.len() == 0,
        start.absorb_all(replica, uppers).advanced.contains(id),
    ensures
        names(uppers, id),
    decreases uppers.len(),
{
    if uppers.len() > 0 {
        let front = uppers.drop_last();
        let before = start.absorb_all(replica, front);
        if before.advanced.contains(id) {
            lemma_advanced_named(start, replica, front, id);
            let i = choose|i: int| 0 <= i < front.len() && (#[trigger] front[i]).0 == id;
            assert(uppers[i].0 == id);
        } else {
            lemma_pushed(before.advanced, uppers.last().0, id);
            assert(uppers[uppers.len() - 1].0 == id);
        }
    }
}

/// What a replica says of a subscription is taken in as its write frontier: the end of a batch,
/// and the empty frontier when the subscription was dropped. Apart from the subscriptions, the
/// instance becomes what it becomes when the replica reports just that.
pub proof fn law_subscribe_response_is_a_report<P, L: FrontierLogic>(
    state: InstanceModel<P, L>,
    storage_ids: Set<u64>,
    id: u64,
    response: SubscribeResponseModel<P>,
    replica: u64,
)
    requires
        state.collections.contains_key(id),
    ensures
        ({
            let upper = match response {
                SubscribeResponseModel::Batch(batch) => batch.upper,
                SubscribeResponseModel::DroppedAt(_) => Seq::empty(),
            };
            let after = state.handle_response(
                storage_ids,
                ComputeResponseModel::SubscribeResponse(id, response),
                replica,
            ).0;
            let reported = state.handle_response(
                storage_ids,
                ComputeResponseModel::FrontierUppers(seq![(id, upper)]),
                replica,
            ).0;
            after == (InstanceModel { subscribes: after.subscribes, ..reported })
        }),
{
    let upper = match response {
        SubscribeResponseModel::Batch(batch) => batch.upper,
        SubscribeResponseModel::DroppedAt(_) => Seq::empty(),
    };
    let uppers = seq![(id, upper)];
    let picked = |upper: (u64, Frontier)| state.collections.contains_key(upper.0);
    reveal(Seq::filter);
    assert(uppers.drop_last() =~= Seq::empty());
    assert(uppers.drop_last().filter(picked) =~= Seq::empty());
    assert(uppers.filter(picked) =~= uppers);
    let (before, given, _) = state.subscribe_response(id, response);
    assert(given == upper);
    let update = state.absorbed(replica, uppers);
    assert(before.absorbed(replica, uppers) == update);
    let absorbed = InstanceModel { collections: update.collections, spent: update.spent, ..state };
    let other = InstanceModel { collections: update.collections, spent: update.spent, ..before };
    assert(absorbed.propagation(update.capabilities) == other.propagation(update.capabilities));
    let after = before.update_write_frontiers(storage_ids, replica, uppers);
    let reported = state.update_write_frontiers(storage_ids, replica, uppers);
    assert(after =~= (InstanceModel { subscribes: after.subscribes, ..reported }));
}

/// A batch of a subscription in progress is passed on exactly if it goes beyond what the
/// subscription has reached: it then starts there, ends where the replica's batch ends, and holds
/// exactly the updates that the batch has from there on. The subscription then stands at the end
/// of the batch, and is over if that is empty. A subscription that is not in progress stays so,
/// and others are not touched.
pub proof fn law_batches_are_passed_on<P, L: FrontierLogic>(
    state: InstanceModel<P, L>,
    storage_ids: Set<u64>,
    id: u64,
    batch: SubscribeBatchModel<P>,
    replica: u64,
)
    requires
        state.subscribes.contains_key(id) ==> state.subscribes[id].len() > 0,
    ensures
        ({
            let (after, answer) = state.handle_response(
                storage_ids,
                ComputeResponseModel::SubscribeResponse(id, SubscribeResponseModel::Batch(batch)),
                replica,
            );
            let reached = state.subscribes[id];
            if state.subscribes.contains_key(id) && frontier_lt(reached, batch.upper) {
                &&& after.subscribes == if batch.upper.len() == 0 {
                    state.subscribes.remove(id)
                } else {
                    state.subscribes.insert(id, batch.upper)
                }
                &&& answer matches Some(
                    ControllerResponseModel::SubscribeResponse(
                        to,
                        SubscribeResponseModel::Batch(passed),
                    ),
                ) && {
                    &&& to == id
                    &&& passed.lower == reached
                    &&& passed.upper == batch.upper
                    &&& match batch.updates {
                        Ok(updates) => passed.updates == Ok::<Seq<(u64, P, i64)>, Seq<char>>(
                            updates.filter(|update: (u64, P, i64)| reaches(reached, update.0)),
                        ),
                        Err(text) => passed.updates == Err::<Seq<(u64, P, i64)>, Seq<char>>(text),
                    }
                }
            } else {
                &&& after.subscribes == state.subscribes
                &&& answer is None
            }
        }),
{
    let after = state.handle_response(
        storage_ids,
        ComputeResponseModel::SubscribeResponse(id, SubscribeResponseModel::Batch(batch)),
        replica,
    ).0;
    if !state.subscribes.contains_key(id) {
        let none = Seq::<u64>::empty();
        if frontier_lt(none, batch.upper) {
            if batch.upper.len() > 0 {
                assert(reaches(none, batch.upper[0]));
            }
        }
        assert(state.subscribes.remove(id) =~= state.subscribes);
    } else if !frontier_lt(state.subscribes[id], batch.upper) {
        assert(state.subscribes.insert(id, state.subscribes[id]) =~= state.subscribes);
    }
}

/// A subscription that replicas have dropped is over. Its client learns once where it stood.
pub proof fn law_drops_are_passed_on<P, L: FrontierLogic>(
    state: InstanceModel<P, L>,
    storage_ids: Set<u64>,
    id: u64,
    frontier: Frontier,
    replica: u64,
)
    ensures
        ({
            let (after, answer) = state.handle_response(
                storage_ids,
                ComputeResponseModel::SubscribeResponse(
                    id,
                    SubscribeResponseModel::DroppedAt(frontier),
                ),
                replica,
            );
            &&& after.subscribes == state.subscribes.remove(id)
            &&& state.subscribes.contains_key(id) ==> answer == Some(
                ControllerResponseModel::<P>::SubscribeResponse(
                    id,
                    SubscribeResponseModel::DroppedAt(state.subscribes[id]),
                ),
            )
            &&& !state.subscribes.contains_key(id) ==> answer is None
        }),
{
}

/// The answer to a pending peek that comes from the replica that the peek targets, or from any if
/// it targets none, is passed on as it is, and the peek is no longer pending. Any other answer
/// changes nothing.
pub proof fn law_peek_answers_are_passed_on<P, L: FrontierLogic>(
    state: InstanceModel<P, L>,
    storage_ids: Set<u64>,
    uuid: u128,
    response: PeekResponseModel<P>,
    context: OpenTelemetryContext<P>,
    replica: u64,
)
    ensures
        ({
            let (after, answer) = state.handle_response(
                storage_ids,
                ComputeResponseModel::PeekResponse(uuid, response, context),
                replica,
            );
            if state.peeks.contains_key(uuid) && (state.peeks[uuid].target_replica is None
                || state.peeks[uuid].target_replica == Some(replica)) {
                &&& answer == Some(ControllerResponseModel::PeekResponse(uuid, response, context))
                &&& after.peeks == state.peeks.remove(uuid)
                &&& after.subscribes == state.subscribes
            } else {
                &&& answer is None
                &&& after == state
            }
        }),
{
    let uuids = Set::<u128>::empty().insert(uuid);
    assert(state.peeks.remove_keys(uuids) =~= state.peeks.remove(uuid));
}

/// Whatever a replica says, the identity of the instance, its replicas, and the responses that
/// are ready stay, nothing is recorded but what replicas may forget, and what was recorded and
/// left to the surroundings stays.
pub proof fn law_responses_leave_the_rest<P, L: FrontierLogic>(
    state: InstanceModel<P, L>,
    storage_ids: Set<u64>,
    response: ComputeResponseModel<P>,
    replica: u64,
)
    ensures
        ({
            let after = state.handle_response(storage_ids, response, replica).0;
            &&& same_identity(state, after)
            &&& only_adds(state, after)
            &&& after.replicas == state.replicas
            &&& after.replica_epochs == state.replica_epochs
            &&& after.failed_replicas == state.failed_replicas
            &&& after.ready_responses == state.ready_responses
            &&& response is FrontierUppers ==> after.subscribes == state.subscribes
            &&& !(response is PeekResponse) ==> after.peeks == state.peeks
            &&& forall|i: int|
                state.history.len() <= i < after.history.len() ==> (
                #[trigger] after.history[i]) is AllowCompaction
            &&& forall|i: int|
                state.actions.len() <= i < after.actions.len() ==> match
                #[trigger] after.actions[i] {
                    ActionModel::Send { command, .. } => command is AllowCompaction,
                    ActionModel::UpdateStorageReadCapabilities(_) => true,
                    ActionModel::UpdateStorageWriteFrontiers(_) => true,
                    _ => false,
                }
        }),
{
}

} // verus!
