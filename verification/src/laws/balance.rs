//! The accounts of the read capabilities stay balanced.
use vstd::prelude::*;

use super::accounts::{
    accounted, accounted_when_settled, capabilities_at, held_by, held_by_peeks, held_by_readers,
    held_directly, law_capabilities_change_alone, lemma_dropping_accounts, lemma_settled_accounts,
    reads_at,
};
use super::readable::{
    lemma_accounts_are_readable, lemma_frontiers_advance, lemma_lower_reaches, lemma_peeks_hold,
    lemma_readers_hold, readable_directly, readable_for_readers,
};
use crate::changes::{count_at, is_zero, lemma_occurrences, recorded, Counts};
use crate::collection::CollectionModel;
use crate::command::PeekModel;
use crate::frontier::{
    frontier_le, lemma_le_reflexive, lemma_le_transitive, lemma_reaches_through, reaches, Frontier,
};
use crate::model::{distinct, given_up, InstanceModel, PolicyUpdate, UpperUpdate};
use crate::ordered::{increasing, lemma_sorted_ids, sorted_ids};
use crate::pending::PendingPeek;
use crate::policy::{FrontierLogic, PolicyModel};
use crate::propagation::{acyclic, dependencies, lemma_acyclic_less};
use crate::sums::{lemma_sum_insert, lemma_sum_same};

verus! {

/// Whether the collections that are in use exist: those that pending peeks read, and those that
/// a collection reads which is itself still readable.
pub open spec fn uses_exist<P, L>(
    collections: Map<u64, CollectionModel<L>>,
    peeks: Map<u128, PendingPeek<P>>,
) -> bool {
    &&& forall|uuid: u128| #[trigger]
        peeks.contains_key(uuid) ==> collections.contains_key(peeks[uuid].target)
    &&& inputs_exist(collections)
}

/// Whether the collections exist that a collection reads which is itself still readable.
pub open spec fn inputs_exist<L>(collections: Map<u64, CollectionModel<L>>) -> bool {
    forall|reader: u64, i: int|
        collections.contains_key(reader) && collections[reader].read_frontier().len() > 0 && 0 <= i
            < collections[reader].compute_dependencies.len() ==> collections.contains_key(
            #[trigger] collections[reader].compute_dependencies[i],
        )
}

/// Whether the state is finite, no collection depends on itself, every read capability is
/// accounted for, and what is in use exists.
pub open spec fn balanced<P, L>(state: InstanceModel<P, L>) -> bool {
    &&& state.collections.dom().finite()
    &&& state.peeks.dom().finite()
    &&& acyclic(dependencies(state.collections))
    &&& accounted(state.collections, state.peeks)
    &&& uses_exist(state.collections, state.peeks)
}

/// Whether no read frontier moved back, other than those of the collections in `but`.
pub open spec fn advances<L>(
    before: Map<u64, CollectionModel<L>>,
    after: Map<u64, CollectionModel<L>>,
    but: Set<u64>,
) -> bool {
    forall|id: u64| #[trigger]
        after.contains_key(id) && before.contains_key(id) && !but.contains(id) ==> frontier_le(
            before[id].read_frontier(),
            after[id].read_frontier(),
        )
}

/// Read frontiers that do not move back twice do not move back.
pub proof fn lemma_advances_twice<L>(
    first: Map<u64, CollectionModel<L>>,
    second: Map<u64, CollectionModel<L>>,
    third: Map<u64, CollectionModel<L>>,
    but: Set<u64>,
)
    requires
        advances(first, second, but),
        advances(second, third, but),
        forall|id: u64| #[trigger]
            third.contains_key(id) && first.contains_key(id) ==> second.contains_key(id),
    ensures
        advances(first, third, but),
{
    assert forall|id: u64| #[trigger]
        third.contains_key(id) && first.contains_key(id) && !but.contains(id) implies frontier_le(
        first[id].read_frontier(),
        third[id].read_frontier(),
    ) by {
        assert(second.contains_key(id));
        lemma_le_transitive(
            first[id].read_frontier(),
            second[id].read_frontier(),
            third[id].read_frontier(),
        );
    }
}

/// Whether nothing holds a read capability on `id` but its own policy: no pending peek reads it,
/// and no collection that is itself still readable.
pub open spec fn unclaimed<P, L>(state: InstanceModel<P, L>, id: u64) -> bool {
    &&& forall|reader: u64| #[trigger]
        state.collections.contains_key(reader) && state.collections[reader].read_frontier().len()
            > 0 ==> !state.collections[reader].compute_dependencies.contains(id)
    &&& forall|uuid: u128| #[trigger]
        state.peeks.contains_key(uuid) ==> state.peeks[uuid].target != id
}

/// Changes that make up for what is missing settle the accounts, move no read frontier back, and
/// drop nothing that is in use, where `direct` says what is held other than by readers.
pub proof fn lemma_settling_balances<P, L: FrontierLogic>(
    state: InstanceModel<P, L>,
    storage_ids: Set<u64>,
    updates: Map<u64, Counts>,
    direct: spec_fn(u64, u64) -> int,
)
    requires
        state.collections.dom().finite(),
        updates.dom().finite(),
        acyclic(dependencies(state.collections)),
        accounted_when_settled(state.collections, updates, direct),
        forall|id: u64, time: u64| #[trigger] direct(id, time) >= 0,
        readable_for_readers(state.collections),
        readable_directly(state.collections, direct),
        inputs_exist(state.collections),
    ensures
        ({
            let after = state.update_read_capabilities(storage_ids, updates);
            &&& after.collections.dom().finite()
            &&& acyclic(dependencies(after.collections))
            &&& accounted_when_settled(after.collections, Map::empty(), direct)
            &&& inputs_exist(after.collections)
            &&& advances(state.collections, after.collections, Set::empty())
            &&& forall|id: u64, time: u64|
                state.collections.contains_key(id) && #[trigger] direct(id, time) > 0
                    ==> after.collections.contains_key(id)
        }),
{
    let settled = state.propagation(updates).settled(storage_ids).collections;
    let after = state.update_read_capabilities(storage_ids, updates).collections;
    lemma_settled_accounts(state, storage_ids, updates, direct);
    law_capabilities_change_alone(state, storage_ids, updates);
    lemma_acyclic_less(state.collections, after);
    assert forall|other: u64| #[trigger]
        settled.contains_key(other) && !after.contains_key(other) implies settled[
        other
    ].read_frontier().len() == 0 by {
        assert(state.collections.contains_key(other) && !after.contains_key(other));
    }
    assert(after.dom().subset_of(settled.dom())) by {
        assert forall|other: u64| after.dom().contains(other) implies settled.dom().contains(
            other,
        ) by {
            assert(after.contains_key(other));
        }
    }
    lemma_dropping_accounts(settled, after, 0, 0);
    assert forall|id: u64, time: u64|
        after.contains_key(id) implies #[trigger] capabilities_at(after, id, time) + recorded(
        Map::<u64, Counts>::empty(),
        id,
    )(time) == direct(id, time) + held_by_readers(after, id, time) by {
        lemma_dropping_accounts(settled, after, id, time);
        assert(state.collections.contains_key(id));
        assert(capabilities_at(settled, id, time) + recorded(
            Map::<u64, Counts>::empty(),
            id,
        )(time) == direct(id, time) + held_by_readers(settled, id, time));
    }
    assert forall|other: u64| #[trigger] settled.contains_key(other) implies settled[
        other
    ].compute_dependencies == state.collections[other].compute_dependencies by {
        assert(state.collections.contains_key(other));
    }
    lemma_frontiers_advance(state.collections, settled, direct);
    lemma_accounts_are_readable(settled, direct);
    assert forall|id: u64, time: u64|
        state.collections.contains_key(id) && #[trigger] direct(id, time)
            > 0 implies after.contains_key(id) by {
        assert(settled.contains_key(id));
        assert(reaches(settled[id].read_frontier(), time));
    }
    assert forall|reader: u64, i: int|
        after.contains_key(reader) && after[reader].read_frontier().len() > 0 && 0 <= i
            < after[reader].compute_dependencies.len() implies after.contains_key(
        #[trigger] after[reader].compute_dependencies[i],
    ) by {
        let id = after[reader].compute_dependencies[i];
        let upper = after[reader].read_frontier();
        assert(state.collections.contains_key(reader));
        assert(state.collections[reader].compute_dependencies[i] == id);
        assert(frontier_le(state.collections[reader].read_frontier(), upper));
        assert(reaches(state.collections[reader].read_frontier(), upper[0]));
        assert(state.collections.contains_key(id));
        assert(settled.contains_key(reader) && settled.contains_key(id));
        assert(settled[reader].compute_dependencies.contains(id));
        assert(frontier_le(settled[id].read_frontier(), upper));
        assert(reaches(settled[id].read_frontier(), upper[0]));
    }
}

/// Whether what is held readable is readable: each collection at the times that its policy
/// implies, that its readers are readable at, and that pending peeks read.
pub open spec fn readable<P, L>(
    collections: Map<u64, CollectionModel<L>>,
    peeks: Map<u128, PendingPeek<P>>,
) -> bool {
    &&& readable_for_readers(collections)
    &&& forall|id: u64| #[trigger]
        collections.contains_key(id) ==> frontier_le(
            collections[id].read_frontier(),
            collections[id].implied_capability,
        )
    &&& forall|uuid: u128| #[trigger]
        peeks.contains_key(uuid) && collections.contains_key(peeks[uuid].target) ==> reaches(
            collections[peeks[uuid].target].read_frontier(),
            peeks[uuid].time,
        )
}

/// What is held directly is not less than nothing, and readable where it should be.
pub proof fn lemma_direct_readable<P, L>(
    collections: Map<u64, CollectionModel<L>>,
    peeks: Map<u128, PendingPeek<P>>,
)
    requires
        peeks.dom().finite(),
    ensures
        forall|id: u64, time: u64| #[trigger] held_directly(collections, peeks)(id, time) >= 0,
        readable(collections, peeks) ==> readable_directly(
            collections,
            held_directly(collections, peeks),
        ),
{
    let direct = held_directly(collections, peeks);
    assert forall|id: u64, time: u64| #[trigger] direct(id, time) >= 0 by {
        lemma_occurrences(collections[id].implied_capability, time);
        lemma_peeks_hold(peeks, id, time);
    }
    if readable(collections, peeks) {
        assert forall|id: u64, time: u64|
            collections.contains_key(id) && #[trigger] direct(id, time) > 0 implies reaches(
            collections[id].read_frontier(),
            time,
        ) by {
            let implied = collections[id].implied_capability;
            lemma_occurrences(implied, time);
            lemma_peeks_hold(peeks, id, time);
            if implied.contains(time) {
                let i = choose|i: int| 0 <= i < implied.len() && implied[i] == time;
                assert(reaches(collections[id].read_frontier(), implied[i]));
            } else {
                let uuid = choose|uuid: u128| #[trigger]
                    peeks.contains_key(uuid) && peeks[uuid].target == id && peeks[uuid].time
                        == time;
                assert(peeks.contains_key(uuid));
            }
        }
    }
}

/// Where the accounts are balanced, every pending peek can still be answered at its time, every
/// collection is readable wherever a collection that reads it is, and every collection is
/// readable from the times on that its policy implies.
pub proof fn law_balanced_is_readable<P, L>(state: InstanceModel<P, L>)
    requires
        balanced(state),
    ensures
        readable(state.collections, state.peeks),
        unreadable_hold_nothing(state.collections),
{
    let collections = state.collections;
    let direct = held_directly(collections, state.peeks);
    lemma_accounts_without_changes(state);
    lemma_direct_readable(collections, state.peeks);
    lemma_accounts_are_readable(collections, direct);
    assert forall|id: u64| #[trigger] collections.contains_key(id) implies frontier_le(
        collections[id].read_frontier(),
        collections[id].implied_capability,
    ) by {
        let implied = collections[id].implied_capability;
        assert forall|i: int| 0 <= i < implied.len() implies reaches(
            collections[id].read_frontier(),
            #[trigger] implied[i],
        ) by {
            lemma_occurrences(implied, implied[i]);
            lemma_peeks_hold(state.peeks, id, implied[i]);
            assert(implied.contains(implied[i]));
            assert(direct(id, implied[i]) > 0);
        }
    }
    assert forall|uuid: u128| #[trigger]
        state.peeks.contains_key(uuid) && collections.contains_key(
            state.peeks[uuid].target,
        ) implies reaches(
        collections[state.peeks[uuid].target].read_frontier(),
        state.peeks[uuid].time,
    ) by {
        let id = state.peeks[uuid].target;
        let time = state.peeks[uuid].time;
        lemma_occurrences(collections[id].implied_capability, time);
        lemma_peeks_hold(state.peeks, id, time);
        assert(direct(id, time) > 0);
    }
    assert forall|id: u64| #[trigger]
        collections.contains_key(id) && collections[id].read_frontier().len() == 0 implies is_zero(
        collections[id].read_capabilities,
    ) by {
        let counts = collections[id].read_capabilities;
        assert forall|time: u64| #[trigger] counts(time) == 0 by {
            lemma_readers_hold(collections, id, time);
            assert(direct(id, time) >= 0);
            assert(capabilities_at(collections, id, time) + recorded(
                Map::<u64, Counts>::empty(),
                id,
            )(time) >= 0);
            if counts(time) > 0 {
                lemma_lower_reaches(counts, time);
            }
        }
    }
}

/// Whether collections that are not readable hold no read capability.
pub open spec fn unreadable_hold_nothing<L>(collections: Map<u64, CollectionModel<L>>) -> bool {
    forall|id: u64| #[trigger]
        collections.contains_key(id) && collections[id].read_frontier().len() == 0 ==> is_zero(
            collections[id].read_capabilities,
        )
}

/// Whether `updates` are the changes that balance the accounts of a state with the given peeks.
pub open spec fn makes_up<P, L>(
    state: InstanceModel<P, L>,
    updates: Map<u64, Counts>,
    peeks: Map<u128, PendingPeek<P>>,
) -> bool {
    &&& state.collections.dom().finite()
    &&& peeks.dom().finite()
    &&& updates.dom().finite()
    &&& updates.dom().subset_of(state.collections.dom())
    &&& acyclic(dependencies(state.collections))
    &&& accounted_when_settled(state.collections, updates, held_directly(state.collections, peeks))
    &&& readable(state.collections, peeks)
    &&& uses_exist(state.collections, peeks)
    &&& unreadable_hold_nothing(state.collections)
}

/// Changes that make up for what is missing balance the accounts.
proof fn lemma_update_balances<P, L: FrontierLogic>(
    state: InstanceModel<P, L>,
    storage_ids: Set<u64>,
    updates: Map<u64, Counts>,
    peeks: Map<u128, PendingPeek<P>>,
)
    requires
        makes_up(state, updates, peeks),
    ensures
        ({
            let after = state.update_read_capabilities(storage_ids, updates);
            &&& after.collections.dom().finite()
            &&& acyclic(dependencies(after.collections))
            &&& accounted(after.collections, peeks)
            &&& uses_exist(after.collections, peeks)
            &&& advances(state.collections, after.collections, Set::empty())
        }),
{
    let direct = held_directly(state.collections, peeks);
    let after = state.update_read_capabilities(storage_ids, updates);
    lemma_direct_readable(state.collections, peeks);
    lemma_settling_balances(state, storage_ids, updates, direct);
    law_capabilities_change_alone(state, storage_ids, updates);
    assert forall|id: u64, time: u64|
        after.collections.contains_key(id) implies #[trigger] capabilities_at(
        after.collections,
        id,
        time,
    ) == held_directly(after.collections, peeks)(id, time) + held_by_readers(
        after.collections,
        id,
        time,
    ) by {
        assert(capabilities_at(after.collections, id, time) + recorded(
            Map::<u64, Counts>::empty(),
            id,
        )(time) == direct(id, time) + held_by_readers(
            after.collections,
            id,
            time,
        ));
        assert(state.collections.contains_key(id));
    }
    assert forall|uuid: u128| #[trigger]
        peeks.contains_key(uuid) implies after.collections.contains_key(peeks[uuid].target) by {
        let id = peeks[uuid].target;
        let time = peeks[uuid].time;
        lemma_occurrences(state.collections[id].implied_capability, time);
        lemma_peeks_hold(peeks, id, time);
        assert(direct(id, time) > 0);
    }
}

/// A new peek holds one read capability.
proof fn lemma_peek_holds<P>(
    peeks: Map<u128, PendingPeek<P>>,
    uuid: u128,
    peek: PendingPeek<P>,
    id: u64,
    time: u64,
)
    requires
        peeks.dom().finite(),
        !peeks.contains_key(uuid),
    ensures
        held_by_peeks(peeks.insert(uuid, peek), id, time) == held_by_peeks(peeks, id, time)
            + if peek.target == id && peek.time == time {
            1int
        } else {
            0int
        },
{
    let more = peeks.insert(uuid, peek);
    assert(more.dom() =~= peeks.dom().insert(uuid));
    lemma_sum_insert(peeks.dom(), reads_at(more, id, time), uuid);
    lemma_sum_same(peeks.dom(), reads_at(more, id, time), reads_at(peeks, id, time));
}

/// The peek that is pending once it was started.
pub open spec fn pending_peek<P>(peek: PeekModel<P>, target_replica: Option<u64>) -> PendingPeek<
    P,
> {
    PendingPeek {
        target: peek.id,
        time: peek.timestamp,
        target_replica,
        otel_ctx: peek.otel_ctx,
    }
}

/// The read capability that goes with a new peek makes up for what the peek holds.
pub proof fn lemma_peek_makes_up<P, L: FrontierLogic>(
    state: InstanceModel<P, L>,
    peek: PeekModel<P>,
    target_replica: Option<u64>,
)
    requires
        balanced(state),
        state.peek_error(peek.id, peek.timestamp) is None,
        !state.peeks.contains_key(peek.uuid),
    ensures
        makes_up(
            InstanceModel { spent: state.spent + 1, ..state },
            Map::<u64, Counts>::empty().insert(peek.id, count_at(peek.timestamp, 1)),
            state.peeks.insert(peek.uuid, pending_peek(peek, target_replica)),
        ),
{
    law_balanced_is_readable(state);
    let pending = pending_peek(peek, target_replica);
    let peeks = state.peeks.insert(peek.uuid, pending);
    let updates = Map::<u64, Counts>::empty().insert(peek.id, count_at(peek.timestamp, 1));
    assert(peeks.dom() =~= state.peeks.dom().insert(peek.uuid));
    assert(updates.dom() =~= Set::<u64>::empty().insert(peek.id));
    assert forall|id: u64, time: u64|
        state.collections.contains_key(id) implies #[trigger] capabilities_at(
        state.collections,
        id,
        time,
    ) + recorded(updates, id)(time) == held_directly(state.collections, peeks)(id, time)
        + held_by_readers(state.collections, id, time) by {
        lemma_peek_holds(state.peeks, peek.uuid, pending, id, time);
    }
}

/// A peek that is not refused and whose name is new keeps the accounts balanced.
pub proof fn law_peek_balances<P, L: FrontierLogic>(
    state: InstanceModel<P, L>,
    storage_ids: Set<u64>,
    peek: PeekModel<P>,
    target_replica: Option<u64>,
)
    requires
        balanced(state),
        state.peek_error(peek.id, peek.timestamp) is None,
        !state.peeks.contains_key(peek.uuid),
    ensures
        balanced(state.peek(storage_ids, peek, target_replica)),
        advances(
            state.collections,
            state.peek(storage_ids, peek, target_replica).collections,
            Set::empty(),
        ),
{
    let peeks = state.peeks.insert(peek.uuid, pending_peek(peek, target_replica));
    let updates = Map::<u64, Counts>::empty().insert(peek.id, count_at(peek.timestamp, 1));
    let start = InstanceModel { spent: state.spent + 1, ..state };
    lemma_peek_makes_up(state, peek, target_replica);
    lemma_update_balances(start, storage_ids, updates, peeks);
    law_capabilities_change_alone(start, storage_ids, updates);
}

/// Forgetting the peeks of a list takes away what they hold.
proof fn lemma_peeks_give_up<P>(
    peeks: Map<u128, PendingPeek<P>>,
    uuids: Seq<u128>,
    id: u64,
    time: u64,
)
    requires
        peeks.dom().finite(),
        increasing(uuids),
    ensures
        peeks.remove_keys(uuids.to_set()).dom().finite(),
        held_by_peeks(peeks.remove_keys(uuids.to_set()), id, time) == held_by_peeks(
            peeks,
            id,
            time,
        ) + recorded(given_up(peeks, uuids), id)(time),
        given_up(peeks, uuids).dom().finite(),
        forall|target: u64| #[trigger]
            given_up(peeks, uuids).contains_key(target) ==> exists|uuid: u128| #[trigger]
                peeks.contains_key(uuid) && peeks[uuid].target == target,
    decreases uuids.len(),
{
    if uuids.len() == 0 {
        assert(peeks.remove_keys(uuids.to_set()) =~= peeks);
    } else {
        let front = uuids.drop_last();
        let last = uuids.last();
        lemma_peeks_give_up(peeks, front, id, time);
        let before = peeks.remove_keys(front.to_set());
        let after = peeks.remove_keys(uuids.to_set());
        assert forall|uuid: u128| uuids.to_set().contains(uuid) <==> front.to_set().insert(
            last,
        ).contains(uuid) by {
            if front.contains(uuid) {
                let i = choose|i: int| 0 <= i < front.len() && front[i] == uuid;
                assert(uuids[i] == uuid);
            }
            if uuid == last {
                assert(uuids[uuids.len() - 1] == uuid);
            }
            if uuids.contains(uuid) && uuid != last {
                let i = choose|i: int| 0 <= i < uuids.len() && uuids[i] == uuid;
                assert(front[i] == uuid);
            }
        }
        assert(!front.contains(last)) by {
            if front.contains(last) {
                let i = choose|i: int| 0 <= i < front.len() && front[i] == last;
                assert(uuids[i] < uuids[uuids.len() - 1]);
            }
        }
        assert(after =~= before.remove(last));
        if peeks.contains_key(last) {
            assert(before.contains_key(last));
            assert(before =~= after.insert(last, peeks[last]));
            lemma_peek_holds(after, last, peeks[last], id, time);
            assert forall|target: u64| #[trigger]
                given_up(peeks, uuids).contains_key(target) implies exists|uuid: u128| #[trigger]
                peeks.contains_key(uuid) && peeks[uuid].target == target by {
                if target == peeks[last].target {
                    assert(peeks.contains_key(last));
                } else {
                    assert(given_up(peeks, front).contains_key(target));
                }
            }
            assert(given_up(peeks, uuids).dom() =~= given_up(peeks, front).dom().insert(
                peeks[last].target,
            ));
        } else {
            assert(after =~= before);
        }
    }
}

/// What peeks give up makes up for their being forgotten.
pub proof fn lemma_forgotten_peeks_make_up<P, L: FrontierLogic>(
    state: InstanceModel<P, L>,
    uuids: Set<u128>,
)
    requires
        balanced(state),
        uuids.finite(),
    ensures
        makes_up(
            InstanceModel {
                peeks: state.peeks.remove_keys(uuids),
                spent: state.spent + uuids.len(),
                ..state
            },
            given_up(state.peeks, sorted_ids(uuids)),
            state.peeks.remove_keys(uuids),
        ),
{
    law_balanced_is_readable(state);
    let list = sorted_ids(uuids);
    let updates = given_up(state.peeks, list);
    let peeks = state.peeks.remove_keys(uuids);
    lemma_sorted_ids(uuids);
    assert(list.to_set() =~= uuids);
    lemma_peeks_give_up(state.peeks, list, 0, 0);
    assert forall|id: u64, time: u64|
        state.collections.contains_key(id) implies #[trigger] capabilities_at(
        state.collections,
        id,
        time,
    ) + recorded(updates, id)(time) == held_directly(state.collections, peeks)(id, time)
        + held_by_readers(state.collections, id, time) by {
        lemma_peeks_give_up(state.peeks, list, id, time);
    }
    assert forall|id: u64| updates.dom().contains(id) implies state.collections.dom().contains(
        id,
    ) by {
        assert(updates.contains_key(id));
        let uuid = choose|uuid: u128| #[trigger]
            state.peeks.contains_key(uuid) && state.peeks[uuid].target == id;
        assert(state.peeks.contains_key(uuid));
    }
}

/// Forgetting peeks keeps the accounts balanced.
pub proof fn law_removing_peeks_balances<P, L: FrontierLogic>(
    state: InstanceModel<P, L>,
    storage_ids: Set<u64>,
    uuids: Set<u128>,
)
    requires
        balanced(state),
        uuids.finite(),
    ensures
        balanced(state.remove_peeks(storage_ids, uuids)),
        advances(
            state.collections,
            state.remove_peeks(storage_ids, uuids).collections,
            Set::empty(),
        ),
{
    let updates = given_up(state.peeks, sorted_ids(uuids));
    let peeks = state.peeks.remove_keys(uuids);
    let start = InstanceModel { peeks, spent: state.spent + uuids.len(), ..state };
    lemma_forgotten_peeks_make_up(state, uuids);
    lemma_update_balances(start, storage_ids, updates, peeks);
    law_capabilities_change_alone(start, storage_ids, updates);
}

/// What readers hold does not change with a collection whose read capabilities and dependencies
/// stay.
proof fn lemma_reader_stays<L>(
    collections: Map<u64, CollectionModel<L>>,
    reader: u64,
    after: CollectionModel<L>,
    id: u64,
    time: u64,
)
    requires
        collections.dom().finite(),
        collections.contains_key(reader),
        after.compute_dependencies == collections[reader].compute_dependencies,
        after.read_capabilities == collections[reader].read_capabilities,
    ensures
        held_by_readers(collections.insert(reader, after), id, time)
            == held_by_readers(collections, id, time),
{
    let changed = collections.insert(reader, after);
    assert(changed.dom() =~= collections.dom());
    lemma_sum_same(
        collections.dom(),
        held_by(changed, id, time),
        held_by(collections, id, time),
    );
}

/// When the implied capability of one collection moves, the change that goes with the move makes
/// up for it.
proof fn lemma_downgrade_accounts<P, L: FrontierLogic>(
    collections: Map<u64, CollectionModel<L>>,
    peeks: Map<u128, PendingPeek<P>>,
    pending: Map<u64, Counts>,
    moving: u64,
    capability: Frontier,
    after: CollectionModel<L>,
    more: Map<u64, Counts>,
)
    requires
        collections.dom().finite(),
        collections.contains_key(moving),
        accounted_when_settled(collections, pending, held_directly(collections, peeks)),
        after.compute_dependencies == collections[moving].compute_dependencies,
        after.read_capabilities == collections[moving].read_capabilities,
        after.implied_capability == collections[moving].downgraded(capability).implied_capability,
        forall|id: u64, time: u64| #[trigger]
            recorded(more, id)(time) == recorded(pending, id)(time) + if id == moving {
                collections[moving].downgrade_changes(capability)(time)
            } else {
                0
            },
    ensures
        accounted_when_settled(
            collections.insert(moving, after),
            more,
            held_directly(collections.insert(moving, after), peeks),
        ),
{
    let changed = collections.insert(moving, after);
    assert forall|id: u64, time: u64|
        changed.contains_key(id) implies #[trigger] capabilities_at(changed, id, time) + recorded(
        more,
        id,
    )(time) == held_directly(changed, peeks)(id, time) + held_by_readers(
        changed,
        id,
        time,
    ) by {
        lemma_reader_stays(collections, moving, after, id, time);
        assert(capabilities_at(collections, id, time) + recorded(pending, id)(time)
            == held_directly(collections, peeks)(id, time) + held_by_readers(
            collections,
            id,
            time,
        ));
        assert(recorded(more, id)(time) == recorded(pending, id)(time) + if id == moving {
            collections[moving].downgrade_changes(capability)(time)
        } else {
            0
        });
    }
}

/// Whether the two maps hold the same collections, with the same dependencies and the same read
/// capabilities.
pub open spec fn same_graph<L>(
    left: Map<u64, CollectionModel<L>>,
    right: Map<u64, CollectionModel<L>>,
) -> bool {
    &&& left.dom() == right.dom()
    &&& forall|id: u64| #[trigger]
        left.contains_key(id) ==> left[id].compute_dependencies == right[id].compute_dependencies
            && left[id].read_capabilities == right[id].read_capabilities
}

/// What is in use and what is readable does not change where dependencies and read capabilities
/// stay and implied capabilities do not move back.
proof fn lemma_same_graph_readable<P, L>(
    before: Map<u64, CollectionModel<L>>,
    after: Map<u64, CollectionModel<L>>,
    peeks: Map<u128, PendingPeek<P>>,
)
    requires
        same_graph(after, before),
        forall|id: u64| #[trigger]
            after.contains_key(id) ==> frontier_le(
                before[id].implied_capability,
                after[id].implied_capability,
            ),
        readable(before, peeks),
        uses_exist(before, peeks),
    ensures
        readable(after, peeks),
        uses_exist(after, peeks),
{
    assert forall|id: u64| #[trigger] after.contains_key(id) implies frontier_le(
        after[id].read_frontier(),
        after[id].implied_capability,
    ) by {
        assert(before.contains_key(id));
        let implied = after[id].implied_capability;
        assert forall|i: int| 0 <= i < implied.len() implies reaches(
            after[id].read_frontier(),
            #[trigger] implied[i],
        ) by {
            assert(reaches(before[id].implied_capability, implied[i]));
            lemma_reaches_through(
                before[id].read_frontier(),
                before[id].implied_capability,
                implied[i],
            );
        }
    }
    assert forall|reader: u64, id: u64| #[trigger]
        after.contains_key(reader) && #[trigger] after.contains_key(id)
            && after[reader].compute_dependencies.contains(id) implies frontier_le(
        after[id].read_frontier(),
        after[reader].read_frontier(),
    ) by {
        assert(before.contains_key(reader) && before.contains_key(id));
    }
    assert forall|reader: u64, i: int|
        after.contains_key(reader) && after[reader].read_frontier().len() > 0 && 0 <= i
            < after[reader].compute_dependencies.len() implies after.contains_key(
        #[trigger] after[reader].compute_dependencies[i],
    ) by {
        assert(before.contains_key(reader));
        assert(before.contains_key(before[reader].compute_dependencies[i]));
    }
    assert forall|uuid: u128| #[trigger]
        peeks.contains_key(uuid) && after.contains_key(peeks[uuid].target) implies reaches(
        after[peeks[uuid].target].read_frontier(),
        peeks[uuid].time,
    ) by {
        assert(before.contains_key(peeks[uuid].target));
    }
}

/// Policies that are assigned leave accounts that their changes make up for.
proof fn lemma_assigning_accounts<P, L: FrontierLogic>(
    start: PolicyUpdate<L>,
    peeks: Map<u128, PendingPeek<P>>,
    policies: Seq<(u64, PolicyModel<L>)>,
)
    requires
        start.collections.dom().finite(),
        start.capabilities.dom().finite(),
        start.capabilities.dom().subset_of(start.collections.dom()),
        accounted_when_settled(
            start.collections,
            start.capabilities,
            held_directly(start.collections, peeks),
        ),
    ensures
        ({
            let end = start.assign_all(policies);
            &&& same_graph(end.collections, start.collections)
            &&& forall|id: u64| #[trigger]
                end.collections.contains_key(id) ==> frontier_le(
                    start.collections[id].implied_capability,
                    end.collections[id].implied_capability,
                )
            &&& end.capabilities.dom().finite()
            &&& end.capabilities.dom().subset_of(end.collections.dom())
            &&& accounted_when_settled(
                end.collections,
                end.capabilities,
                held_directly(end.collections, peeks),
            )
        }),
    decreases policies.len(),
{
    if policies.len() > 0 {
        lemma_assigning_accounts(start, peeks, policies.drop_last());
        let before = start.assign_all(policies.drop_last());
        let (id, policy) = policies.last();
        let end = start.assign_all(policies);
        if before.missing is None && before.collections.contains_key(id) {
            let collection = before.collections[id];
            let capability = policy.answer(collection.write_frontier);
            let after = end.collections[id];
            assert forall|other: u64, time: u64| #[trigger]
                recorded(end.capabilities, other)(time) == recorded(
                    before.capabilities,
                    other,
                )(time) + if other == id {
                    collection.downgrade_changes(capability)(time)
                } else {
                    0
                } by {}
            lemma_downgrade_accounts(
                before.collections,
                peeks,
                before.capabilities,
                id,
                capability,
                after,
                end.capabilities,
            );
            assert(end.collections.dom() =~= before.collections.dom());
            assert(end.capabilities.dom().subset_of(before.capabilities.dom().insert(id)));
            vstd::set_lib::lemma_set_subset_finite(
                before.capabilities.dom().insert(id),
                end.capabilities.dom(),
            );
        }
    }
}

/// The changes that go with policies make up for the capabilities that the policies imply.
pub proof fn lemma_policies_make_up<P, L: FrontierLogic>(
    state: InstanceModel<P, L>,
    policies: Seq<(u64, PolicyModel<L>)>,
)
    requires
        balanced(state),
    ensures
        ({
            let update = state.assigned(policies);
            &&& makes_up(
                InstanceModel { collections: update.collections, spent: update.spent, ..state },
                update.capabilities,
                state.peeks,
            )
            &&& same_graph(update.collections, state.collections)
        }),
{
    law_balanced_is_readable(state);
    let start = state.assigned(Seq::empty());
    lemma_accounts_without_changes(state);
    lemma_assigning_accounts(start, state.peeks, policies);
    let update = state.assigned(policies);
    assert(update == start.assign_all(policies));
    lemma_acyclic_less(state.collections, update.collections);
    lemma_same_graph_readable(state.collections, update.collections, state.peeks);
}

/// Assigning read policies to collections that exist keeps the accounts balanced.
pub proof fn law_policies_balance<P, L: FrontierLogic>(
    state: InstanceModel<P, L>,
    storage_ids: Set<u64>,
    policies: Seq<(u64, PolicyModel<L>)>,
)
    requires
        balanced(state),
        state.assigned(policies).missing is None,
    ensures
        balanced(state.set_read_policy(storage_ids, policies)),
        advances(
            state.collections,
            state.set_read_policy(storage_ids, policies).collections,
            Set::empty(),
        ),
{
    let update = state.assigned(policies);
    let assigned = InstanceModel { collections: update.collections, spent: update.spent, ..state };
    lemma_policies_make_up(state, policies);
    lemma_update_balances(assigned, storage_ids, update.capabilities, state.peeks);
    law_capabilities_change_alone(assigned, storage_ids, update.capabilities);
}

/// Balanced accounts need no change.
proof fn lemma_accounts_without_changes<P, L>(state: InstanceModel<P, L>)
    requires
        accounted(state.collections, state.peeks),
    ensures
        accounted_when_settled(
            state.collections,
            Map::empty(),
            held_directly(state.collections, state.peeks),
        ),
{
    assert forall|id: u64, time: u64|
        state.collections.contains_key(id) implies #[trigger] capabilities_at(
        state.collections,
        id,
        time,
    ) + recorded(Map::empty(), id)(time) == held_directly(state.collections, state.peeks)(id, time)
        + held_by_readers(state.collections, id, time) by {}
}

/// Reports that are taken in leave accounts that their changes make up for.
proof fn lemma_absorbing_accounts<P, L: FrontierLogic>(
    start: UpperUpdate<L>,
    peeks: Map<u128, PendingPeek<P>>,
    replica: u64,
    uppers: Seq<(u64, Frontier)>,
)
    requires
        start.collections.dom().finite(),
        start.capabilities.is_empty(),
        distinct(uppers),
        forall|i: int|
            0 <= i < uppers.len() ==> start.collections.contains_key((#[trigger] uppers[i]).0),
        accounted_when_settled(
            start.collections,
            start.capabilities,
            held_directly(start.collections, peeks),
        ),
    ensures
        ({
            let end = start.absorb_all(replica, uppers);
            &&& same_graph(end.collections, start.collections)
            &&& forall|id: u64| #[trigger]
                end.collections.contains_key(id) ==> frontier_le(
                    start.collections[id].implied_capability,
                    end.collections[id].implied_capability,
                )
            &&& end.capabilities.dom().finite()
            &&& forall|id: u64| #[trigger]
                end.capabilities.contains_key(id) ==> exists|i: int|
                    0 <= i < uppers.len() && (#[trigger] uppers[i]).0 == id
            &&& accounted_when_settled(
                end.collections,
                end.capabilities,
                held_directly(end.collections, peeks),
            )
        }),
    decreases uppers.len(),
{
    if uppers.len() == 0 {
        assert(start.capabilities.dom() =~= Set::empty());
    } else {
        let front = uppers.drop_last();
        assert forall|i: int| 0 <= i < front.len() implies start.collections.contains_key(
            (#[trigger] front[i]).0,
        ) by {
            assert(front[i] == uppers[i]);
        }
        assert(distinct(front)) by {
            assert forall|i: int, j: int| 0 <= i < j < front.len() implies (#[trigger] front[i]).0
                != (#[trigger] front[j]).0 by {
                assert(front[i] == uppers[i] && front[j] == uppers[j]);
            }
        }
        lemma_absorbing_accounts(start, peeks, replica, front);
        let before = start.absorb_all(replica, front);
        let end = start.absorb_all(replica, uppers);
        let last = uppers.len() - 1;
        let (id, upper) = uppers[last];
        assert(start.collections.contains_key(id));
        assert(!before.capabilities.contains_key(id)) by {
            if before.capabilities.contains_key(id) {
                let i = choose|i: int| 0 <= i < front.len() && (#[trigger] front[i]).0 == id;
                assert(uppers[i].0 != uppers[last].0);
            }
        }
        let collection = before.collections[id];
        let with_upper = collection.with_upper(replica, upper);
        let capability = collection.read_policy.answer(with_upper.write_frontier);
        let after = with_upper.downgraded(capability);
        assert forall|other: u64, time: u64| #[trigger]
            recorded(end.capabilities, other)(time) == recorded(before.capabilities, other)(time)
                + if other == id {
                collection.downgrade_changes(capability)(time)
            } else {
                0
            } by {}
        lemma_downgrade_accounts(
            before.collections,
            peeks,
            before.capabilities,
            id,
            capability,
            after,
            end.capabilities,
        );
        assert(end.collections.dom() =~= before.collections.dom());
        assert(end.capabilities.dom().subset_of(before.capabilities.dom().insert(id)));
        vstd::set_lib::lemma_set_subset_finite(
            before.capabilities.dom().insert(id),
            end.capabilities.dom(),
        );
        assert forall|other: u64| #[trigger] end.capabilities.contains_key(other) implies exists|
            i: int,
        |
            0 <= i < uppers.len() && (#[trigger] uppers[i]).0 == other by {
            if other == id {
                assert(uppers[last].0 == other);
            } else {
                assert(before.capabilities.contains_key(other));
                let i = choose|i: int| 0 <= i < front.len() && (#[trigger] front[i]).0 == other;
                assert(uppers[i].0 == other);
            }
        }
    }
}

/// Dropping collections that nobody reads or writes any more keeps the accounts balanced.
proof fn lemma_dropping_balances<P, L: FrontierLogic>(
    state: InstanceModel<P, L>,
    candidates: Set<u64>,
)
    requires
        balanced(state),
    ensures
        balanced(
            InstanceModel {
                collections: crate::model::without_dropped(state.collections, candidates),
                ..state
            },
        ),
        advances(
            state.collections,
            crate::model::without_dropped(state.collections, candidates),
            Set::empty(),
        ),
{
    law_balanced_is_readable(state);
    let fewer = crate::model::without_dropped(state.collections, candidates);
    lemma_acyclic_less(state.collections, fewer);
    lemma_dropping_accounts(state.collections, fewer, 0, 0);
    assert forall|id: u64| #[trigger]
        fewer.contains_key(id) && state.collections.contains_key(id) implies frontier_le(
        state.collections[id].read_frontier(),
        fewer[id].read_frontier(),
    ) by {
        lemma_le_reflexive(fewer[id].read_frontier());
    }
    assert forall|reader: u64, i: int|
        fewer.contains_key(reader) && fewer[reader].read_frontier().len() > 0 && 0 <= i
            < fewer[reader].compute_dependencies.len() implies fewer.contains_key(
        #[trigger] fewer[reader].compute_dependencies[i],
    ) by {
        let id = fewer[reader].compute_dependencies[i];
        assert(state.collections[reader].compute_dependencies[i] == id);
        assert(state.collections.contains_key(reader) && state.collections.contains_key(id));
        assert(state.collections[reader].compute_dependencies.contains(id));
        assert(reaches(
            state.collections[id].read_frontier(),
            state.collections[reader].read_frontier()[0],
        ));
    }
    assert forall|id: u64, time: u64|
        fewer.contains_key(id) implies #[trigger] capabilities_at(fewer, id, time)
        == held_directly(fewer, state.peeks)(id, time) + held_by_readers(
        fewer,
        id,
        time,
    ) by {
        lemma_dropping_accounts(state.collections, fewer, id, time);
        assert(state.collections.contains_key(id));
        assert(capabilities_at(state.collections, id, time) == held_directly(
            state.collections,
            state.peeks,
        )(id, time) + held_by_readers(state.collections, id, time));
    }
}

/// The changes that go with reports make up for the capabilities that policies then imply.
pub proof fn lemma_uppers_make_up<P, L: FrontierLogic>(
    state: InstanceModel<P, L>,
    replica: u64,
    uppers: Seq<(u64, Frontier)>,
)
    requires
        balanced(state),
        forall|i: int|
            0 <= i < uppers.len() ==> state.collections.contains_key((#[trigger] uppers[i]).0),
        distinct(uppers),
    ensures
        ({
            let update = state.absorbed(replica, uppers);
            &&& makes_up(
                InstanceModel { collections: update.collections, spent: update.spent, ..state },
                update.capabilities,
                state.peeks,
            )
            &&& same_graph(update.collections, state.collections)
        }),
{
    law_balanced_is_readable(state);
    let start = state.absorbed(replica, Seq::empty());
    lemma_accounts_without_changes(state);
    assert(start.capabilities =~= Map::empty());
    lemma_absorbing_accounts(start, state.peeks, replica, uppers);
    let update = state.absorbed(replica, uppers);
    assert(update == start.absorb_all(replica, uppers));
    lemma_acyclic_less(state.collections, update.collections);
    lemma_same_graph_readable(state.collections, update.collections, state.peeks);
    assert forall|id: u64| update.capabilities.dom().contains(
        id,
    ) implies update.collections.dom().contains(id) by {
        assert(update.capabilities.contains_key(id));
        let i = choose|i: int| 0 <= i < uppers.len() && (#[trigger] uppers[i]).0 == id;
        assert(state.collections.contains_key(uppers[i].0));
    }
}

/// Taking in write frontiers, at most one for each collection, keeps the accounts balanced.
pub proof fn law_uppers_balance<P, L: FrontierLogic>(
    state: InstanceModel<P, L>,
    storage_ids: Set<u64>,
    replica: u64,
    uppers: Seq<(u64, Frontier)>,
)
    requires
        balanced(state),
        state.tracks(uppers),
        distinct(uppers),
    ensures
        balanced(state.update_write_frontiers(storage_ids, replica, uppers)),
        advances(
            state.collections,
            state.update_write_frontiers(storage_ids, replica, uppers).collections,
            Set::empty(),
        ),
{
    let update = state.absorbed(replica, uppers);
    let absorbed = InstanceModel { collections: update.collections, spent: update.spent, ..state };
    lemma_uppers_make_up(state, replica, uppers);
    lemma_update_balances(absorbed, storage_ids, update.capabilities, state.peeks);
    law_capabilities_change_alone(absorbed, storage_ids, update.capabilities);
    let applied = state.with_uppers(storage_ids, replica, uppers);
    assert(balanced(applied));
    lemma_dropping_balances(applied, update.finished.to_set());
}

/// Forgetting what a replica has reported keeps the accounts balanced.
pub proof fn law_forgetting_uppers_balances<P, L: FrontierLogic>(
    state: InstanceModel<P, L>,
    replica: u64,
)
    requires
        balanced(state),
    ensures
        balanced(state.remove_write_frontiers(replica)),
        advances(
            state.collections,
            state.remove_write_frontiers(replica).collections,
            Set::empty(),
        ),
{
    law_balanced_is_readable(state);
    let collections = state.collections.map_values(
        |collection: CollectionModel<L>| collection.without_replica(replica),
    );
    let forgotten = InstanceModel { collections, ..state };
    assert(collections.dom() =~= state.collections.dom());
    lemma_acyclic_less(state.collections, collections);
    assert forall|id: u64, time: u64|
        collections.contains_key(id) implies #[trigger] capabilities_at(collections, id, time)
        == held_directly(collections, state.peeks)(id, time) + held_by_readers(
        collections,
        id,
        time,
    ) by {
        lemma_sum_same(
            state.collections.dom(),
            held_by(collections, id, time),
            held_by(state.collections, id, time),
        );
        assert(capabilities_at(state.collections, id, time) == held_directly(
            state.collections,
            state.peeks,
        )(id, time) + held_by_readers(state.collections, id, time));
    }
    assert forall|id: u64| #[trigger] collections.contains_key(id) implies frontier_le(
        state.collections[id].implied_capability,
        collections[id].implied_capability,
    ) by {
        lemma_le_reflexive(collections[id].implied_capability);
    }
    lemma_same_graph_readable(state.collections, collections, state.peeks);
    assert(balanced(forgotten));
    lemma_dropping_balances(
        forgotten,
        Set::new(
            |id: u64|
                state.collections.contains_key(id)
                    && state.collections[id].replica_write_frontiers.contains_key(replica),
        ),
    );
}

} // verus!
