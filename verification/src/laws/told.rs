//! What replicas are told when read frontiers move.
use vstd::prelude::*;

use super::accounts::{capabilities_at, law_capabilities_change_alone, same_but_capabilities};
use super::balance::{balanced, law_policies_balance, unclaimed};
use super::growth::{lemma_absorbing_keeps, lemma_nothing_held};
use super::policies::{law_dropped_collections_hold_nothing, lemma_policies_keep};
use super::refusals::law_refused_drops;
use super::reports::all_done;
use crate::action::ActionModel;
use crate::changes::{is_least, is_zero, lower, moved, occurrences, Counts};
use crate::collection::CollectionModel;
use crate::command::{CommandModel, PeekModel};
use crate::frontier::Frontier;
use crate::model::{
    compactions, dropping, given_up, lemma_all_assigned, lemma_all_dropped, InstanceModel,
    PolicyUpdate, ReplicaModel,
};
use crate::ordered::{greatest, lemma_picked, sorted_ids};
use crate::policy::{FrontierLogic, PolicyModel};
use crate::propagation::{
    acyclic, dependencies, lemma_pending_greatest, lemma_settled, lemma_settles, Propagation,
};

verus! {

/// The times from which on `id` is readable; none if there is no such collection.
pub open spec fn readable_from<L>(collections: Map<u64, CollectionModel<L>>, id: u64) -> Frontier {
    if collections.contains_key(id) {
        collections[id].read_frontier()
    } else {
        Seq::empty()
    }
}

/// Whether the addressees are all replicas, each with its number of starts.
pub open spec fn all_replicas<P>(
    replicas: Map<u64, ReplicaModel<P>>,
    addressees: Map<u64, u64>,
) -> bool {
    &&& addressees.dom() == replicas.dom()
    &&& forall|id: u64| #[trigger]
        replicas.contains_key(id) ==> addressees[id] == replicas[id].starts
}

/// Whether the action sends the command to all replicas.
pub open spec fn sends_to_all<P>(
    action: ActionModel<P>,
    replicas: Map<u64, ReplicaModel<P>>,
    command: CommandModel<P>,
) -> bool {
    action matches ActionModel::Send { command: sent, replicas: addressees } && sent == command
        && all_replicas(replicas, addressees)
}

/// Whether the list names a collection that there was, with the times from which on it is now
/// readable.
pub open spec fn names_frontier<L>(
    before: Map<u64, CollectionModel<L>>,
    after: Map<u64, CollectionModel<L>>,
    named: (u64, Frontier),
) -> bool {
    before.contains_key(named.0) && named.1 == readable_from(after, named.0)
}

/// Whether the list names every collection whose read frontier moved, each with its new read
/// frontier.
pub open spec fn names_moves<L>(
    before: Map<u64, CollectionModel<L>>,
    after: Map<u64, CollectionModel<L>>,
    list: Seq<(u64, Frontier)>,
) -> bool {
    &&& forall|id: u64| #[trigger]
        before.contains_key(id) && before[id].read_frontier() != readable_from(after, id)
            ==> list.contains((id, readable_from(after, id)))
    &&& forall|i: int| 0 <= i < list.len() ==> names_frontier(before, after, #[trigger] list[i])
}

/// Whether the actions that were added hold no command.
pub open spec fn sends_nothing<P>(before: Seq<ActionModel<P>>, after: Seq<ActionModel<P>>) -> bool {
    &&& before.len() <= after.len()
    &&& forall|i: int| 0 <= i < before.len() ==> #[trigger] after[i] == before[i]
    &&& forall|i: int| before.len() <= i < after.len() ==> !((#[trigger] after[i]) is Send)
}

/// Whether replicas are told of all moves of read frontiers by one command: it is recorded and
/// sent to all replicas, and names every collection whose read frontier moved, also where that
/// became empty, with its new read frontier. Where no command is sent, no read frontier moved.
pub open spec fn tells_moves_at_once<P, L>(
    before: InstanceModel<P, L>,
    after: InstanceModel<P, L>,
) -> bool {
    ||| {
        &&& after.history == before.history
        &&& sends_nothing(before.actions, after.actions)
        &&& names_moves(before.collections, after.collections, Seq::empty())
    }
    ||| exists|list: Seq<(u64, Frontier)>| #[trigger] tells_by(before, after, list)
}

/// Whether replicas are told of all moves of read frontiers by a command with this list.
pub open spec fn tells_by<P, L>(
    before: InstanceModel<P, L>,
    after: InstanceModel<P, L>,
    list: Seq<(u64, Frontier)>,
) -> bool {
    let command = CommandModel::<P>::AllowCompaction(list);
    &&& list.len() > 0
    &&& names_moves(before.collections, after.collections, list)
    &&& after.history == before.history.push(command)
    &&& after.actions.len() > before.actions.len()
    &&& forall|i: int| 0 <= i < before.actions.len() ==> #[trigger] after.actions[i]
        == before.actions[i]
    &&& sends_to_all(after.actions[before.actions.len() as int], before.replicas, command)
    &&& forall|i: int|
        before.actions.len() < i < after.actions.len() ==> !((#[trigger] after.actions[i]) is Send)
}

/// Frontiers with no difference are the same, where they have at most one element.
proof fn lemma_no_move(from: Counts, to: Counts)
    requires
        is_zero(moved(lower(from), lower(to))),
    ensures
        lower(from) == lower(to),
{
    let (left, right) = (lower(from), lower(to));
    let move_ = moved(left, right);
    reveal_with_fuel(occurrences, 2);
    if left.len() == 0 && right.len() == 0 {
        assert(left =~= right);
    } else if left.len() == 0 {
        assert(move_(right[0]) == 0);
    } else if right.len() == 0 {
        assert(move_(left[0]) == 0);
    } else {
        assert(move_(left[0]) == 0);
        assert(left =~= right);
    }
}

/// Whether the visits tell which read frontiers moved.
spec fn visits_tell<L>(state: Propagation<L>, start: Map<u64, CollectionModel<L>>) -> bool {
    &&& state.collections.dom() == start.dom()
    &&& state.pending.dom().finite()
    &&& forall|i: int| 0 <= i < state.net.len() ==> start.contains_key((#[trigger] state.net[i]).0)
    &&& forall|id: u64| #[trigger]
        start.contains_key(id) && state.collections[id].read_frontier()
            != start[id].read_frontier() ==> exists|i: int|
            0 <= i < state.net.len() && (#[trigger] state.net[i]).0 == id && !is_zero(
                state.net[i].1,
            )
}

/// A step keeps telling which read frontiers moved.
proof fn lemma_visit_tells<L>(
    state: Propagation<L>,
    storage_ids: Set<u64>,
    start: Map<u64, CollectionModel<L>>,
)
    requires
        visits_tell(state, start),
        !state.pending.is_empty(),
    ensures
        visits_tell(state.step(storage_ids), start),
{
    lemma_pending_greatest(state);
    let first = greatest(state.pending.dom());
    let rest = state.pending.remove(first);
    let next = state.step(storage_ids);
    assert(rest.dom() =~= state.pending.dom().remove(first));
    assert(next.collections.dom() =~= start.dom());
    if state.collections.contains_key(first) {
        let before = state.collections[first];
        let after = before.with_changes(state.pending[first]);
        let move_ = moved(before.read_frontier(), after.read_frontier());
        super::accounts::lemma_recorded_finite(rest, before.compute_dependencies, move_);
        assert forall|i: int| 0 <= i < next.net.len() implies start.contains_key(
            (#[trigger] next.net[i]).0,
        ) by {
            if i < state.net.len() {
                assert(next.net[i] == state.net[i]);
            }
        }
        assert forall|id: u64| #[trigger]
            start.contains_key(id) && next.collections[id].read_frontier()
                != start[id].read_frontier() implies exists|i: int|
            0 <= i < next.net.len() && (#[trigger] next.net[i]).0 == id && !is_zero(
                next.net[i].1,
            ) by {
            if state.collections[id].read_frontier() != start[id].read_frontier() {
                let i = choose|i: int|
                    0 <= i < state.net.len() && (#[trigger] state.net[i]).0 == id && !is_zero(
                        state.net[i].1,
                    );
                assert(next.net[i] == state.net[i]);
            } else {
                assert(id == first);
                assert(!is_zero(move_)) by {
                    if is_zero(move_) {
                        lemma_no_move(before.read_capabilities, after.read_capabilities);
                    }
                }
                assert(next.net[state.net.len() as int] == (first, move_));
            }
        }
    } else {
        assert(next.net == state.net);
        assert forall|id: u64| #[trigger]
            start.contains_key(id) && next.collections[id].read_frontier()
                != start[id].read_frontier() implies exists|i: int|
            0 <= i < next.net.len() && (#[trigger] next.net[i]).0 == id && !is_zero(
                next.net[i].1,
            ) by {
            assert(state.collections[id].read_frontier() != start[id].read_frontier());
        }
    }
}

/// Any number of steps keeps telling which read frontiers moved.
proof fn lemma_visits_tell<L>(
    state: Propagation<L>,
    storage_ids: Set<u64>,
    start: Map<u64, CollectionModel<L>>,
    n: nat,
)
    requires
        visits_tell(state, start),
    ensures
        visits_tell(state.steps(storage_ids, n), start),
    decreases n,
{
    if n > 0 {
        lemma_visits_tell(state, storage_ids, start, (n - 1) as nat);
        let before = state.steps(storage_ids, (n - 1) as nat);
        if !before.pending.is_empty() {
            lemma_visit_tells(before, storage_ids, start);
        }
    }
}

/// What is in a list and is picked is in the part that is picked out.
pub proof fn lemma_pick_is_picked<A>(list: Seq<A>, pick: spec_fn(A) -> bool, i: int)
    requires
        0 <= i < list.len(),
        pick(list[i]),
    ensures
        list.filter(pick).contains(list[i]),
    decreases list.len(),
{
    reveal(Seq::filter);
    let front = list.drop_last();
    let picked = list.filter(pick);
    if i < front.len() {
        lemma_pick_is_picked(front, pick, i);
        assert(front[i] == list[i]);
        let found = front.filter(pick);
        let j = choose|j: int| 0 <= j < found.len() && found[j] == list[i];
        assert(picked[j] == list[i]);
    } else {
        assert(picked[front.filter(pick).len() as int] == list[i]);
    }
}

/// Changes to read capabilities tell all replicas, by at most one command, exactly of the moves
/// of read frontiers: every collection whose read frontier moved is named with its new read
/// frontier, an empty one included, and the command is recorded too.
pub proof fn law_moves_are_told<P, L: FrontierLogic>(
    state: InstanceModel<P, L>,
    storage_ids: Set<u64>,
    updates: Map<u64, Counts>,
)
    requires
        updates.dom().finite(),
    ensures
        tells_moves_at_once(state, state.update_read_capabilities(storage_ids, updates)),
{
    let start = state.propagation(updates);
    let end = start.settled(storage_ids);
    let after = state.update_read_capabilities(storage_ids, updates);
    let list = compactions(end.collections, end.net);
    let pick = |visit: (u64, Counts)| !is_zero(visit.1);
    let show = |visit: (u64, Counts)| (visit.0, end.collections[visit.0].read_frontier());
    law_capabilities_change_alone(state, storage_ids, updates);
    lemma_visits_tell(start, storage_ids, state.collections, start.steps_to_settle(storage_ids));
    lemma_picked(end.net, pick);
    assert forall|id: u64| #[trigger] state.collections.contains_key(id) implies readable_from(
        after.collections,
        id,
    ) == end.collections[id].read_frontier() by {
        if !after.collections.contains_key(id) {
            assert(end.collections[id].is_droppable());
            assert(end.collections[id].read_frontier() =~= Seq::empty());
        }
    }
    assert(names_moves(state.collections, after.collections, list)) by {
        assert forall|id: u64| #[trigger]
            state.collections.contains_key(id) && state.collections[id].read_frontier()
                != readable_from(after.collections, id) implies list.contains(
            (id, readable_from(after.collections, id)),
        ) by {
            let i = choose|i: int|
                0 <= i < end.net.len() && (#[trigger] end.net[i]).0 == id && !is_zero(
                    end.net[i].1,
                );
            lemma_pick_is_picked(end.net, pick, i);
            let visits = end.net.filter(pick);
            let j = choose|j: int| 0 <= j < visits.len() && visits[j] == end.net[i];
            assert(list[j] == show(visits[j]));
        }
        assert forall|i: int| 0 <= i < list.len() implies names_frontier(
            state.collections,
            after.collections,
            #[trigger] list[i],
        ) by {
            let visit = end.net.filter(pick)[i];
            assert(list[i] == show(visit));
            assert(end.net.contains(visit));
            let j = choose|j: int| 0 <= j < end.net.len() && end.net[j] == visit;
            assert(state.collections.contains_key(end.net[j].0));
        }
    }
    if list.len() == 0 {
        assert(list =~= Seq::empty());
    } else {
        assert(tells_by(state, after, list)) by {
            let addressees = state.replicas.map_values(|replica: ReplicaModel<P>| replica.starts);
            assert(addressees.dom() =~= state.replicas.dom());
        }
    }
}

/// Whether the action allows all replicas to forget the times before `frontier` of `id`.
pub open spec fn allows_to_forget<P>(
    action: ActionModel<P>,
    replicas: Map<u64, ReplicaModel<P>>,
    id: u64,
    frontier: Frontier,
) -> bool {
    match action {
        ActionModel::Send {
            command: CommandModel::AllowCompaction(list),
            replicas: addressees,
        } => all_replicas(replicas, addressees) && list.contains((id, frontier)),
        _ => false,
    }
}

/// Whether all replicas are told the new read frontier of every collection whose read frontier
/// moved, other than those in `but`.
pub open spec fn tells_moves<P, L>(
    before: InstanceModel<P, L>,
    after: InstanceModel<P, L>,
    but: Set<u64>,
) -> bool {
    forall|id: u64| #[trigger]
        before.collections.contains_key(id) && !but.contains(id)
            && before.collections[id].read_frontier() != readable_from(after.collections, id)
            ==> exists|i: int|
            before.actions.len() <= i < after.actions.len() && allows_to_forget(
                #[trigger] after.actions[i],
                before.replicas,
                id,
                readable_from(after.collections, id),
            )
}

/// Actions that are added after a change leave it told.
proof fn lemma_still_told<P, L>(
    start: InstanceModel<P, L>,
    changed: InstanceModel<P, L>,
    before: InstanceModel<P, L>,
    after: InstanceModel<P, L>,
    but: Set<u64>,
)
    requires
        tells_moves_at_once(start, changed),
        start.replicas == before.replicas,
        start.actions == before.actions,
        forall|id: u64| #[trigger]
            before.collections.contains_key(id) && !but.contains(id)
                ==> start.collections.contains_key(id) && start.collections[id].read_frontier()
                == before.collections[id].read_frontier() && readable_from(changed.collections, id)
                == readable_from(after.collections, id),
        changed.actions.len() <= after.actions.len(),
        forall|i: int| 0 <= i < changed.actions.len() ==> #[trigger] after.actions[i]
            == changed.actions[i],
    ensures
        tells_moves(before, after, but),
{
    assert forall|id: u64| #[trigger]
        before.collections.contains_key(id) && !but.contains(id)
            && before.collections[id].read_frontier() != readable_from(
            after.collections,
            id,
        ) implies exists|i: int|
        before.actions.len() <= i < after.actions.len() && allows_to_forget(
            #[trigger] after.actions[i],
            before.replicas,
            id,
            readable_from(after.collections, id),
        ) by {
        let frontier = readable_from(after.collections, id);
        assert(start.collections.contains_key(id));
        if exists|list: Seq<(u64, Frontier)>| #[trigger] tells_by(start, changed, list) {
            let list = choose|list: Seq<(u64, Frontier)>| #[trigger] tells_by(start, changed, list);
            assert(list.contains((id, frontier)));
            let i = start.actions.len() as int;
            assert(after.actions[i] == changed.actions[i]);
            assert(allows_to_forget(after.actions[i], before.replicas, id, frontier));
        } else {
            assert(Seq::<(u64, Frontier)>::empty().contains((id, frontier)));
        }
    }
}

/// Assigning policies leaves read capabilities until the changes are passed on.
proof fn lemma_assigning_leaves<L: FrontierLogic>(
    start: PolicyUpdate<L>,
    policies: Seq<(u64, PolicyModel<L>)>,
)
    requires
        start.capabilities.dom().finite(),
    ensures
        ({
            let end = start.assign_all(policies);
            &&& end.capabilities.dom().finite()
            &&& end.collections.dom() == start.collections.dom()
            &&& forall|id: u64| #[trigger]
                start.collections.contains_key(id) ==> end.collections[id].read_capabilities
                    == start.collections[id].read_capabilities
        }),
    decreases policies.len(),
{
    if policies.len() > 0 {
        lemma_assigning_leaves(start, policies.drop_last());
        let before = start.assign_all(policies.drop_last());
        let end = start.assign_all(policies);
        assert(end.collections.dom() =~= start.collections.dom());
        if before.missing is None && before.collections.contains_key(policies.last().0) {
            assert(end.capabilities.dom() =~= before.capabilities.dom()
                || end.capabilities.dom() =~= before.capabilities.dom().insert(policies.last().0));
        }
    }
}

/// When read policies are assigned to collections that exist, all replicas are told the new read
/// frontier of every collection whose read frontier moved, a collection that is no longer
/// readable at all included.
pub proof fn law_policies_are_told<P, L: FrontierLogic>(
    state: InstanceModel<P, L>,
    storage_ids: Set<u64>,
    policies: Seq<(u64, PolicyModel<L>)>,
)
    requires
        forall|i: int|
            0 <= i < policies.len() ==> state.collections.contains_key((#[trigger] policies[i]).0),
    ensures
        tells_moves_at_once(state, state.set_read_policy(storage_ids, policies)),
        tells_moves(state, state.set_read_policy(storage_ids, policies), Set::empty()),
{
    let start = state.assigned(Seq::empty());
    let update = state.assigned(policies);
    assert(update == start.assign_all(policies));
    assert(start.capabilities.dom() =~= Set::empty());
    lemma_all_assigned(start, policies);
    lemma_assigning_leaves(start, policies);
    let assigned = InstanceModel { collections: update.collections, spent: update.spent, ..state };
    let after = state.set_read_policy(storage_ids, policies);
    law_moves_are_told(assigned, storage_ids, update.capabilities);
    lemma_same_frontiers_told(state, assigned, after);
    lemma_still_told(assigned, after, state, after, Set::empty());
}

/// Where read frontiers are the same, the same has to be told.
proof fn lemma_same_frontiers_told<P, L>(
    before: InstanceModel<P, L>,
    start: InstanceModel<P, L>,
    after: InstanceModel<P, L>,
)
    requires
        tells_moves_at_once(start, after),
        start.collections.dom() == before.collections.dom(),
        forall|id: u64| #[trigger]
            before.collections.contains_key(id) ==> start.collections[id].read_frontier()
                == before.collections[id].read_frontier(),
        start.history == before.history,
        start.actions == before.actions,
        start.replicas == before.replicas,
    ensures
        tells_moves_at_once(before, after),
{
    assert forall|list: Seq<(u64, Frontier)>|
        names_moves(start.collections, after.collections, list) implies names_moves(
        before.collections,
        after.collections,
        list,
    ) by {
        assert forall|id: u64| #[trigger]
            before.collections.contains_key(id) && before.collections[id].read_frontier()
                != readable_from(after.collections, id) implies list.contains(
            (id, readable_from(after.collections, id)),
        ) by {
            assert(start.collections.contains_key(id));
        }
        assert forall|i: int| 0 <= i < list.len() implies names_frontier(
            before.collections,
            after.collections,
            #[trigger] list[i],
        ) by {
            assert(names_frontier(start.collections, after.collections, list[i]));
        }
    }
    if exists|list: Seq<(u64, Frontier)>| #[trigger] tells_by(start, after, list) {
        let list = choose|list: Seq<(u64, Frontier)>| #[trigger] tells_by(start, after, list);
        assert(tells_by(before, after, list));
    }
}

/// When a collection is dropped that was readable, and that no other collection and no pending
/// peek reads, all replicas are told that they may forget all of it.
pub proof fn law_dropped_collection_is_reclaimed<P, L: FrontierLogic>(
    state: InstanceModel<P, L>,
    storage_ids: Set<u64>,
    ids: Seq<u64>,
    id: u64,
)
    requires
        balanced(state),
        forall|i: int| 0 <= i < ids.len() ==> state.collections.contains_key(#[trigger] ids[i]),
        ids.contains(id),
        state.collections[id].read_frontier().len() > 0,
        unclaimed(state, id),
    ensures
        ({
            let after = state.drop_collections(storage_ids, ids);
            exists|i: int|
                state.actions.len() <= i < after.actions.len() && allows_to_forget(
                    #[trigger] after.actions[i],
                    state.replicas,
                    id,
                    Seq::empty(),
                )
        }),
{
    let after = state.drop_collections(storage_ids, ids);
    law_refused_drops(state, ids);
    lemma_all_dropped(state, ids);
    assert forall|i: int| 0 <= i < ids.len() implies state.collections.contains_key(
        (#[trigger] dropping::<L>(ids)[i]).0,
    ) by {
        assert(state.collections.contains_key(ids[i]));
    }
    law_policies_are_told(state, storage_ids, dropping(ids));
    law_policies_balance(state, storage_ids, dropping(ids));
    lemma_policies_keep(state, storage_ids, dropping(ids));
    assert(readable_from(after.collections, id) =~= Seq::empty()) by {
        if after.collections.contains_key(id) {
            law_dropped_collections_hold_nothing(state, storage_ids, ids, id);
            assert(unclaimed(after, id)) by {
                assert forall|reader: u64| #[trigger]
                    after.collections.contains_key(reader) && after.collections[
                        reader
                    ].read_frontier().len() > 0 implies !after.collections[
                    reader
                ].compute_dependencies.contains(id) by {
                    assert(state.collections.contains_key(reader));
                    super::growth::lemma_still_readable(
                        state.collections,
                        after.collections,
                        reader,
                    );
                }
            }
            let counts = after.collections[id].read_capabilities;
            assert forall|time: u64| !is_least(counts, time) by {
                lemma_nothing_held(after, id, time);
                assert(capabilities_at(after.collections, id, time) == occurrences(
                    after.collections[id].implied_capability,
                    time,
                ));
            }
        }
    }
}

/// When peeks are forgotten, all replicas are told of the moves of read frontiers.
pub proof fn law_forgotten_peeks_are_told<P, L: FrontierLogic>(
    state: InstanceModel<P, L>,
    storage_ids: Set<u64>,
    uuids: Set<u128>,
)
    ensures
        tells_moves_at_once(state, state.remove_peeks(storage_ids, uuids)),
        tells_moves(state, state.remove_peeks(storage_ids, uuids), Set::empty()),
{
    let start = InstanceModel {
        peeks: state.peeks.remove_keys(uuids),
        spent: state.spent + uuids.len(),
        ..state
    };
    let updates = given_up(state.peeks, sorted_ids(uuids));
    let after = state.remove_peeks(storage_ids, uuids);
    lemma_given_up_finite(state.peeks, sorted_ids(uuids));
    law_moves_are_told(start, storage_ids, updates);
    lemma_same_frontiers_told(state, start, after);
    lemma_still_told(start, after, state, after, Set::empty());
}

/// Finitely many peeks give up finitely much.
proof fn lemma_given_up_finite<P>(
    peeks: Map<u128, crate::pending::PendingPeek<P>>,
    uuids: Seq<u128>,
)
    ensures
        given_up(peeks, uuids).dom().finite(),
    decreases uuids.len(),
{
    if uuids.len() > 0 {
        lemma_given_up_finite(peeks, uuids.drop_last());
        let before = given_up(peeks, uuids.drop_last());
        let uuid = uuids.last();
        if peeks.contains_key(uuid) {
            assert(given_up(peeks, uuids).dom() =~= before.dom().insert(peeks[uuid].target));
        }
    }
}

/// When peeks are canceled, all replicas are told of the moves of read frontiers.
pub proof fn law_canceled_peeks_are_told<P, L: FrontierLogic>(
    state: InstanceModel<P, L>,
    storage_ids: Set<u64>,
    uuids: Set<u128>,
)
    ensures
        tells_moves(state, state.cancel_peeks(storage_ids, uuids), Set::empty()),
{
    let answered = InstanceModel {
        ready_responses: state.ready_responses + sorted_ids(uuids).map_values(
            |uuid: u128| crate::model::cancel_response(state.peeks, uuid),
        ),
        ..state
    };
    let removed = answered.remove_peeks(storage_ids, uuids);
    law_forgotten_peeks_are_told(answered, storage_ids, uuids);
    lemma_still_told(
        answered,
        removed,
        state,
        state.cancel_peeks(storage_ids, uuids),
        Set::empty(),
    );
}

/// When a peek is started, all replicas are told of the moves of read frontiers.
pub proof fn law_peek_is_told<P, L: FrontierLogic>(
    state: InstanceModel<P, L>,
    storage_ids: Set<u64>,
    peek: PeekModel<P>,
    target_replica: Option<u64>,
)
    ensures
        tells_moves(state, state.peek(storage_ids, peek, target_replica), Set::empty()),
{
    let start = InstanceModel { spent: state.spent + 1, ..state };
    let updates = Map::<u64, Counts>::empty().insert(
        peek.id,
        crate::changes::count_at(peek.timestamp, 1),
    );
    let held = start.update_read_capabilities(storage_ids, updates);
    assert(updates.dom() =~= Set::<u64>::empty().insert(peek.id));
    law_moves_are_told(start, storage_ids, updates);
    lemma_still_told(
        start,
        held,
        state,
        state.peek(storage_ids, peek, target_replica),
        Set::empty(),
    );
}

/// Reports change finitely many capabilities.
proof fn lemma_absorbing_changes_few<L: FrontierLogic>(
    start: crate::model::UpperUpdate<L>,
    replica: u64,
    uppers: Seq<(u64, Frontier)>,
)
    requires
        start.capabilities.dom().finite(),
    ensures
        start.absorb_all(replica, uppers).capabilities.dom().finite(),
    decreases uppers.len(),
{
    if uppers.len() > 0 {
        lemma_absorbing_changes_few(start, replica, uppers.drop_last());
        let before = start.absorb_all(replica, uppers.drop_last());
        let end = start.absorb_all(replica, uppers);
        assert(end.capabilities.dom() =~= before.capabilities.dom() || end.capabilities.dom()
            =~= before.capabilities.dom().insert(uppers.last().0));
    }
}

/// When write frontiers are taken in, all replicas are told of the moves of read frontiers.
pub proof fn law_reports_are_told<P, L: FrontierLogic>(
    state: InstanceModel<P, L>,
    storage_ids: Set<u64>,
    replica: u64,
    uppers: Seq<(u64, Frontier)>,
)
    requires
        forall|i: int|
            0 <= i < uppers.len() ==> state.collections.contains_key((#[trigger] uppers[i]).0),
    ensures
        tells_moves(
            state,
            state.update_write_frontiers(storage_ids, replica, uppers),
            Set::empty(),
        ),
{
    let start = state.absorbed(replica, Seq::empty());
    let update = state.absorbed(replica, uppers);
    assert(update == start.absorb_all(replica, uppers));
    assert(start.capabilities.dom() =~= Set::empty());
    lemma_absorbing_keeps(start, replica, uppers);
    lemma_absorbing_changes_few(start, replica, uppers);
    let absorbed = InstanceModel { collections: update.collections, spent: update.spent, ..state };
    let applied = state.with_uppers(storage_ids, replica, uppers);
    let after = state.update_write_frontiers(storage_ids, replica, uppers);
    law_moves_are_told(absorbed, storage_ids, update.capabilities);
    assert forall|id: u64| #[trigger] state.collections.contains_key(id) implies readable_from(
        applied.collections,
        id,
    ) == readable_from(after.collections, id) && absorbed.collections[id].read_frontier()
        == state.collections[id].read_frontier() by {
        assert(start.collections.contains_key(id));
        if applied.collections.contains_key(id) && !after.collections.contains_key(id) {
            assert(applied.collections[id].is_droppable());
            assert(applied.collections[id].read_frontier() =~= Seq::empty());
        }
    }
    lemma_still_told(absorbed, applied, state, after, Set::empty());
}

/// Whatever a replica says, all replicas are told of the moves of read frontiers.
pub proof fn law_response_is_told<P, L: FrontierLogic>(
    state: InstanceModel<P, L>,
    storage_ids: Set<u64>,
    response: crate::response::ComputeResponseModel<P>,
    replica: u64,
)
    requires
        response matches crate::response::ComputeResponseModel::SubscribeResponse(id, _)
            ==> state.collections.contains_key(id),
    ensures
        tells_moves(
            state,
            state.handle_response(storage_ids, response, replica).0,
            Set::empty(),
        ),
{
    match response {
        crate::response::ComputeResponseModel::FrontierUppers(uppers) => {
            let known = state.tracked_uppers(uppers);
            assert(state.tracks(known)) by {
                lemma_picked(
                    uppers,
                    |upper: (u64, Frontier)| state.collections.contains_key(upper.0),
                );
            }
            law_reports_are_told(state, storage_ids, replica, known);
        },
        crate::response::ComputeResponseModel::PeekResponse(uuid, _, _) => {
            if state.awaits_peek(uuid, replica) {
                law_forgotten_peeks_are_told(state, storage_ids, Set::empty().insert(uuid));
            }
        },
        crate::response::ComputeResponseModel::SubscribeResponse(id, response) => {
            let (before, upper, _) = state.subscribe_response(id, response);
            law_reports_are_told(before, storage_ids, replica, seq![(id, upper)]);
        },
    }
}

/// Whether just the right collections went: those that all replicas are done with, and among them
/// all that were readable and are not any more.
pub open spec fn drops_the_done<L>(
    before: Map<u64, CollectionModel<L>>,
    after: Map<u64, CollectionModel<L>>,
) -> bool {
    &&& forall|id: u64| #[trigger]
        before.contains_key(id) && !after.contains_key(id) ==> all_done(before[id])
    &&& forall|id: u64| #[trigger]
        after.contains_key(id) && before[id].read_frontier().len() > 0
            && after[id].read_frontier().len() == 0 ==> !all_done(after[id])
}

/// Changes to read capabilities drop no collection that a replica may still write, and each that
/// stops being readable and that all replicas are done with.
pub proof fn law_unread_collections_go<P, L: FrontierLogic>(
    state: InstanceModel<P, L>,
    storage_ids: Set<u64>,
    updates: Map<u64, Counts>,
)
    requires
        updates.dom().finite(),
    ensures
        drops_the_done(
            state.collections,
            state.update_read_capabilities(storage_ids, updates).collections,
        ),
{
    let start = state.propagation(updates);
    let end = start.settled(storage_ids);
    let after = state.update_read_capabilities(storage_ids, updates);
    law_capabilities_change_alone(state, storage_ids, updates);
    lemma_visits_tell(start, storage_ids, state.collections, start.steps_to_settle(storage_ids));
    assert forall|id: u64| #[trigger]
        after.collections.contains_key(id) && state.collections[id].read_frontier().len() > 0
            && after.collections[id].read_frontier().len() == 0 implies !all_done(
        after.collections[id],
    ) by {
        assert(state.collections.contains_key(id));
        assert(end.collections[id].read_frontier() != state.collections[id].read_frontier());
        let i = choose|i: int|
            0 <= i < end.net.len() && (#[trigger] end.net[i]).0 == id && !is_zero(end.net[i].1);
        assert(crate::model::visited(end.net).contains(id));
        if all_done(after.collections[id]) {
            assert(end.collections[id].is_droppable());
        }
    }
    assert forall|id: u64| #[trigger]
        state.collections.contains_key(id) && !after.collections.contains_key(id) implies all_done(
        state.collections[id],
    ) by {
        assert(end.collections[id].is_droppable());
        assert(same_but_capabilities(end.collections[id], state.collections[id]));
        assert(end.collections[id].replica_write_frontiers
            == state.collections[id].replica_write_frontiers);
        assert forall|replica: u64| #[trigger]
            state.collections[id].replica_write_frontiers.contains_key(
                replica,
            ) implies state.collections[id].replica_write_frontiers[replica].len() == 0 by {
            assert(end.collections[id].replica_write_frontiers.contains_key(replica));
        }
    }
}

/// Of the collections that a change of read capabilities is for, none is left that is not readable
/// and that all replicas are done with.
pub proof fn law_changed_collections_go<P, L: FrontierLogic>(
    state: InstanceModel<P, L>,
    storage_ids: Set<u64>,
    updates: Map<u64, Counts>,
    id: u64,
)
    requires
        updates.dom().finite(),
        acyclic(dependencies(state.collections)),
        updates.contains_key(id),
    ensures
        ({
            let after = state.update_read_capabilities(storage_ids, updates).collections;
            after.contains_key(id) && after[id].read_frontier().len() == 0 ==> !all_done(after[id])
        }),
{
    let start = state.propagation(updates);
    let n = start.steps_to_settle(storage_ids);
    let end = start.settled(storage_ids);
    let after = state.update_read_capabilities(storage_ids, updates).collections;
    law_capabilities_change_alone(state, storage_ids, updates);
    if after.contains_key(id) {
        assert(state.collections.contains_key(id));
        lemma_settles(start, storage_ids);
        lemma_settled(start, storage_ids, n);
        super::dropping::lemma_visited_in_time(start, storage_ids, id, n);
        if after[id].read_frontier().len() == 0 && all_done(after[id]) {
            assert(end.collections[id].is_droppable());
        }
    }
}

/// The same when policies are assigned to collections that exist.
pub proof fn law_policies_drop_the_done<P, L: FrontierLogic>(
    state: InstanceModel<P, L>,
    storage_ids: Set<u64>,
    policies: Seq<(u64, PolicyModel<L>)>,
)
    requires
        forall|i: int|
            0 <= i < policies.len() ==> state.collections.contains_key((#[trigger] policies[i]).0),
    ensures
        drops_the_done(
            state.collections,
            state.set_read_policy(storage_ids, policies).collections,
        ),
{
    let start = state.assigned(Seq::empty());
    let update = state.assigned(policies);
    assert(update == start.assign_all(policies));
    assert(start.capabilities.dom() =~= Set::empty());
    lemma_all_assigned(start, policies);
    lemma_assigning_leaves(start, policies);
    super::policies::lemma_assigned_keep(start, policies);
    let assigned = InstanceModel { collections: update.collections, spent: update.spent, ..state };
    law_unread_collections_go(assigned, storage_ids, update.capabilities);
    let after = state.set_read_policy(storage_ids, policies);
    lemma_policies_keep(state, storage_ids, policies);
    assert forall|id: u64| #[trigger]
        state.collections.contains_key(id) && !after.collections.contains_key(id) implies all_done(
        state.collections[id],
    ) by {
        assert(update.collections.contains_key(id));
        assert(start.collections.contains_key(id));
    }
    assert forall|id: u64| #[trigger]
        after.collections.contains_key(id) && state.collections[id].read_frontier().len() > 0
            && after.collections[id].read_frontier().len() == 0 implies !all_done(
        after.collections[id],
    ) by {
        assert(start.collections.contains_key(id));
    }
}

/// The same when peeks are forgotten or given up.
pub proof fn law_forgotten_peeks_drop_the_done<P, L: FrontierLogic>(
    state: InstanceModel<P, L>,
    storage_ids: Set<u64>,
    uuids: Set<u128>,
)
    ensures
        drops_the_done(
            state.collections,
            state.remove_peeks(storage_ids, uuids).collections,
        ),
        drops_the_done(
            state.collections,
            state.cancel_peeks(storage_ids, uuids).collections,
        ),
{
    let start = InstanceModel {
        peeks: state.peeks.remove_keys(uuids),
        spent: state.spent + uuids.len(),
        ..state
    };
    let canceled = InstanceModel {
        ready_responses: state.ready_responses + sorted_ids(uuids).map_values(
            |uuid: u128| crate::model::cancel_response(state.peeks, uuid),
        ),
        ..start
    };
    let updates = given_up(state.peeks, sorted_ids(uuids));
    lemma_given_up_finite(state.peeks, sorted_ids(uuids));
    law_unread_collections_go(start, storage_ids, updates);
    law_unread_collections_go(canceled, storage_ids, updates);
}

/// Whether each collection comes after those that it depends on.
pub open spec fn depends_below<L>(collections: Map<u64, CollectionModel<L>>) -> bool {
    forall|id: u64, i: int|
        collections.contains_key(id) && 0 <= i < collections[id].compute_dependencies.len()
            ==> #[trigger] collections[id].compute_dependencies[i] < id
}

/// Whether visits go down, what is pending is below them all, and each visit tells how the read
/// frontier of its collection moved.
spec fn visits_go_down<L>(state: Propagation<L>, start: Map<u64, CollectionModel<L>>) -> bool {
    &&& state.collections.dom() == start.dom()
    &&& state.pending.dom().finite()
    &&& forall|id: u64| #[trigger]
        start.contains_key(id) ==> same_but_capabilities(state.collections[id], start[id])
    &&& forall|i: int, j: int|
        0 <= i < j < state.net.len() ==> (#[trigger] state.net[j]).0 < (#[trigger] state.net[i]).0
    &&& forall|i: int, id: u64|
        0 <= i < state.net.len() && #[trigger] state.pending.contains_key(id) ==> id < (
        #[trigger] state.net[i]).0
    &&& forall|i: int|
        0 <= i < state.net.len() ==> {
            let visit = #[trigger] state.net[i];
            &&& start.contains_key(visit.0)
            &&& visit.1 == moved(
                start[visit.0].read_frontier(),
                state.collections[visit.0].read_frontier(),
            )
        }
    &&& forall|id: u64| #[trigger]
        start.contains_key(id) && (forall|i: int|
            0 <= i < state.net.len() ==> (#[trigger] state.net[i]).0 != id)
            ==> state.collections[id] == start[id]
}

/// A step goes down.
proof fn lemma_visit_goes_down<L>(
    state: Propagation<L>,
    storage_ids: Set<u64>,
    start: Map<u64, CollectionModel<L>>,
)
    requires
        depends_below(start),
        visits_go_down(state, start),
        !state.pending.is_empty(),
    ensures
        visits_go_down(state.step(storage_ids), start),
{
    lemma_pending_greatest(state);
    let first = greatest(state.pending.dom());
    let rest = state.pending.remove(first);
    let next = state.step(storage_ids);
    assert(rest.dom() =~= state.pending.dom().remove(first));
    assert(next.collections.dom() =~= start.dom());
    if state.collections.contains_key(first) {
        let before = state.collections[first];
        let after = before.with_changes(state.pending[first]);
        let move_ = moved(before.read_frontier(), after.read_frontier());
        let below = Set::new(|id: u64| id < first);
        assert(start.contains_key(first));
        assert forall|i: int| 0 <= i < state.net.len() implies (#[trigger] state.net[i]).0
            != first by {
            assert(state.pending.contains_key(first));
        }
        assert(before == start[first]);
        assert(rest.dom().subset_of(below)) by {
            assert forall|id: u64| rest.dom().contains(id) implies below.contains(id) by {
                assert(state.pending.dom().contains(id));
            }
        }
        assert forall|i: int| 0 <= i < before.compute_dependencies.len() implies below.contains(
            #[trigger] before.compute_dependencies[i],
        ) by {
            assert(start[first].compute_dependencies[i] < first);
        }
        super::quiet::lemma_recorded_within(rest, before.compute_dependencies, move_, below);
        super::accounts::lemma_recorded_finite(rest, before.compute_dependencies, move_);
        assert forall|i: int, j: int| 0 <= i < j < next.net.len() implies (
        #[trigger] next.net[j]).0 < (#[trigger] next.net[i]).0 by {
            assert(next.net[i] == state.net[i]);
            if j < state.net.len() {
                assert(next.net[j] == state.net[j]);
            } else {
                assert(state.pending.contains_key(first));
            }
        }
        assert forall|i: int, id: u64|
            0 <= i < next.net.len() && #[trigger] next.pending.contains_key(id) implies id < (
        #[trigger] next.net[i]).0 by {
            assert(next.pending.dom().contains(id));
            assert(below.contains(id));
            if i < state.net.len() {
                assert(next.net[i] == state.net[i]);
                assert(state.pending.contains_key(first));
            }
        }
        assert forall|i: int| 0 <= i < next.net.len() implies {
            let visit = #[trigger] next.net[i];
            &&& start.contains_key(visit.0)
            &&& visit.1 == moved(
                start[visit.0].read_frontier(),
                next.collections[visit.0].read_frontier(),
            )
        } by {
            if i < state.net.len() {
                assert(next.net[i] == state.net[i]);
                assert(state.net[i].0 != first);
            }
        }
        assert forall|id: u64| #[trigger]
            start.contains_key(id) && (forall|i: int|
                0 <= i < next.net.len() ==> (#[trigger] next.net[i]).0
                    != id) implies next.collections[id] == start[id] by {
            assert(next.net[state.net.len() as int].0 == first);
            assert forall|i: int| 0 <= i < state.net.len() implies (#[trigger] state.net[i]).0
                != id by {
                assert(next.net[i] == state.net[i]);
            }
        }
    } else {
        assert(next.net == state.net);
        assert forall|i: int, id: u64|
            0 <= i < next.net.len() && #[trigger] next.pending.contains_key(id) implies id < (
        #[trigger] next.net[i]).0 by {
            assert(state.pending.contains_key(id));
        }
    }
}

/// Any number of steps goes down.
proof fn lemma_visits_go_down<L>(
    state: Propagation<L>,
    storage_ids: Set<u64>,
    start: Map<u64, CollectionModel<L>>,
    n: nat,
)
    requires
        depends_below(start),
        visits_go_down(state, start),
    ensures
        visits_go_down(state.steps(storage_ids, n), start),
    decreases n,
{
    if n > 0 {
        lemma_visits_go_down(state, storage_ids, start, (n - 1) as nat);
        let before = state.steps(storage_ids, (n - 1) as nat);
        if !before.pending.is_empty() {
            lemma_visit_goes_down(before, storage_ids, start);
        }
    }
}

/// What is picked out of visits that go down goes down.
proof fn lemma_picked_go_down(net: Seq<(u64, Counts)>, pick: spec_fn((u64, Counts)) -> bool)
    requires
        forall|i: int, j: int|
            0 <= i < j < net.len() ==> (#[trigger] net[j]).0 < (#[trigger] net[i]).0,
    ensures
        forall|i: int, j: int|
            0 <= i < j < net.filter(pick).len() ==> (#[trigger] net.filter(pick)[j]).0 < (
            #[trigger] net.filter(pick)[i]).0,
    decreases net.len(),
{
    reveal(Seq::filter);
    if net.len() > 0 {
        let front = net.drop_last();
        let last = net.len() - 1;
        assert forall|i: int, j: int| 0 <= i < j < front.len() implies (#[trigger] front[j]).0 < (
        #[trigger] front[i]).0 by {
            assert(net[j].0 < net[i].0);
        }
        lemma_picked_go_down(front, pick);
        lemma_picked(front, pick);
        let some = front.filter(pick);
        let picked = net.filter(pick);
        assert forall|i: int, j: int| 0 <= i < j < picked.len() implies (#[trigger] picked[j]).0 < (
        #[trigger] picked[i]).0 by {
            assert(picked[i] == some[i]);
            if j < some.len() {
                assert(picked[j] == some[j]);
            } else {
                assert(front.contains(some[i]));
                let k = choose|k: int| 0 <= k < front.len() && front[k] == some[i];
                assert(net[last].0 < net[k].0);
            }
        }
    }
}

/// Whether a list goes down and names only collections whose read frontier moved.
pub open spec fn names_only_moves<L>(
    before: Map<u64, CollectionModel<L>>,
    list: Seq<(u64, Frontier)>,
) -> bool {
    &&& forall|i: int, j: int|
        0 <= i < j < list.len() ==> (#[trigger] list[j]).0 < (#[trigger] list[i]).0
    &&& forall|i: int|
        0 <= i < list.len() ==> before[(#[trigger] list[i]).0].read_frontier() != list[i].1
}

/// Where each collection comes after those that it depends on, replicas are told nothing but the
/// moves: a command is sent only if some read frontier moved, and it names each collection whose
/// read frontier moved once, and no other.
pub proof fn law_only_moves_are_told<P, L: FrontierLogic>(
    state: InstanceModel<P, L>,
    storage_ids: Set<u64>,
    updates: Map<u64, Counts>,
)
    requires
        updates.dom().finite(),
        depends_below(state.collections),
    ensures
        ({
            let after = state.update_read_capabilities(storage_ids, updates);
            ||| after.history == state.history && sends_nothing(state.actions, after.actions)
            ||| exists|list: Seq<(u64, Frontier)>| #[trigger]
                tells_by(state, after, list) && names_only_moves(state.collections, list)
        }),
{
    let start = state.propagation(updates);
    let end = start.settled(storage_ids);
    let after = state.update_read_capabilities(storage_ids, updates);
    let list = compactions(end.collections, end.net);
    let pick = |visit: (u64, Counts)| !is_zero(visit.1);
    let show = |visit: (u64, Counts)| (visit.0, end.collections[visit.0].read_frontier());
    let visits = end.net.filter(pick);
    law_moves_are_told(state, storage_ids, updates);
    lemma_visits_go_down(start, storage_ids, state.collections, start.steps_to_settle(storage_ids));
    lemma_picked(end.net, pick);
    lemma_picked_go_down(end.net, pick);
    if list.len() > 0 {
        let command = CommandModel::<P>::AllowCompaction(list);
        assert(after.history == state.history.push(command));
        let told = choose|told: Seq<(u64, Frontier)>| #[trigger] tells_by(state, after, told);
        assert(tells_by(state, after, told));
        assert(after.history[state.history.len() as int] == CommandModel::<P>::AllowCompaction(
            told,
        ));
        assert(told == list);
        assert(names_only_moves(state.collections, list)) by {
            assert forall|i: int, j: int| 0 <= i < j < list.len() implies (
            #[trigger] list[j]).0 < (#[trigger] list[i]).0 by {
                assert(list[i] == show(visits[i]));
                assert(list[j] == show(visits[j]));
            }
            assert forall|i: int| 0 <= i < list.len() implies state.collections[(
            #[trigger] list[i]).0].read_frontier() != list[i].1 by {
                let visit = visits[i];
                assert(list[i] == show(visit));
                assert(pick(visit));
                assert(end.net.contains(visit));
                let k = choose|k: int| 0 <= k < end.net.len() && end.net[k] == visit;
                assert(end.net[k].1 == moved(
                    state.collections[visit.0].read_frontier(),
                    end.collections[visit.0].read_frontier(),
                ));
                if state.collections[visit.0].read_frontier()
                    == end.collections[visit.0].read_frontier() {
                    assert(is_zero(visit.1));
                }
            }
        }
    }
}

} // verus!
