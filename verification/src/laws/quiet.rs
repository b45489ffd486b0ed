//! Changes to read capabilities that move no read frontier.
use vstd::prelude::*;

use super::accounts::{
    capabilities_at, law_capabilities_change_alone, lemma_recorded_finite, lemma_recorded_for_all,
    same_but_capabilities,
};
use super::storage_claims::{asked_at, lemma_asked_more};
use crate::action::ActionModel;
use crate::changes::{is_least, is_zero, lower, moved, occurrences, plus, recorded, Counts};
use crate::collection::CollectionModel;
use crate::frontier::reaches;
use crate::model::{compactions, visited, InstanceModel};
use crate::ordered::{greatest, lemma_picked};
use crate::policy::FrontierLogic;
use crate::propagation::{
    acyclic, dependencies, lemma_pending_greatest, lemma_settled, lemma_settles, Propagation,
};

verus! {

/// Counts that are added at times that are reached leave the frontier where it is.
pub proof fn lemma_lower_kept(counts: Counts, more: Counts)
    requires
        forall|time: u64| #[trigger] more(time) >= 0,
        forall|time: u64| #[trigger] more(time) > 0 ==> reaches(lower(counts), time),
    ensures
        lower(plus(counts, more)) == lower(counts),
{
    let both = plus(counts, more);
    if lower(counts).len() == 0 {
        assert forall|time: u64| #[trigger] both(time) == counts(time) by {
            assert(more(time) >= 0);
        }
        assert(both =~= counts);
    } else {
        let least = lower(counts)[0];
        assert(is_least(counts, least));
        assert(is_least(both, least)) by {
            assert(more(least) >= 0);
            assert forall|other: u64| other < least implies #[trigger] both(other) <= 0 by {
                assert(counts(other) <= 0);
                assert(more(other) >= 0);
                if more(other) > 0 {
                    assert(reaches(lower(counts), other));
                }
            }
        }
        let found = choose|time: u64| is_least(both, time);
        assert(is_least(both, found));
        assert(found == least) by {
            if found < least {
                assert(both(found) <= 0);
            } else if least < found {
                assert(both(least) <= 0);
            }
        }
        assert(lower(both) =~= lower(counts));
    }
}

/// Whether the set holds, with each collection, those that it depends on.
pub open spec fn closed_below<L>(collections: Map<u64, CollectionModel<L>>, ids: Set<u64>) -> bool {
    forall|id: u64, i: int|
        ids.contains(id) && collections.contains_key(id) && 0 <= i
            < collections[id].compute_dependencies.len() ==> ids.contains(
            #[trigger] collections[id].compute_dependencies[i],
        )
}

/// Whether the changes are for collections that exist, and move no read frontier.
pub open spec fn moves_none<L>(
    collections: Map<u64, CollectionModel<L>>,
    updates: Map<u64, Counts>,
) -> bool {
    forall|id: u64| #[trigger]
        updates.contains_key(id) ==> collections.contains_key(id) && collections[id].with_changes(
            updates[id],
        ).read_frontier() == collections[id].read_frontier()
}

/// Whether the action lets replicas forget something.
pub open spec fn allows_compaction<P>(action: ActionModel<P>) -> bool {
    action matches ActionModel::Send { command, .. } && command is AllowCompaction
}

/// Whether actions were added, none of which lets replicas forget something.
pub open spec fn without_compaction<P>(
    before: Seq<ActionModel<P>>,
    after: Seq<ActionModel<P>>,
) -> bool {
    &&& before.len() <= after.len()
    &&& forall|i: int| 0 <= i < before.len() ==> #[trigger] after[i] == before[i]
    &&& forall|i: int|
        before.len() <= i < after.len() ==> !allows_compaction(#[trigger] after[i])
}

/// Actions that are added twice are added.
pub proof fn lemma_without_compaction_twice<P>(
    first: Seq<ActionModel<P>>,
    second: Seq<ActionModel<P>>,
    third: Seq<ActionModel<P>>,
)
    requires
        without_compaction(first, second),
        without_compaction(second, third),
    ensures
        without_compaction(first, third),
{
    assert forall|i: int| 0 <= i < first.len() implies #[trigger] third[i] == first[i] by {
        assert(second[i] == first[i]);
    }
    assert forall|i: int| first.len() <= i < third.len() implies !allows_compaction(
        #[trigger] third[i],
    ) by {
        if i < second.len() {
            assert(third[i] == second[i]);
        }
    }
}

/// Whether changes on their way have moved no read frontier, have stayed within the given
/// identifiers, and what is pending still makes up for what is to be changed.
spec fn still<L>(
    state: Propagation<L>,
    start: Map<u64, CollectionModel<L>>,
    updates: Map<u64, Counts>,
    within: Set<u64>,
) -> bool {
    &&& state.collections.dom() == start.dom()
    &&& state.pending.dom().finite()
    &&& state.pending.dom().subset_of(within)
    &&& forall|id: u64| #[trigger]
        start.contains_key(id) ==> same_but_capabilities(state.collections[id], start[id])
            && state.collections[id].read_frontier() == start[id].read_frontier()
    &&& forall|id: u64, time: u64|
        start.contains_key(id) ==> #[trigger] capabilities_at(state.collections, id, time)
            + recorded(state.pending, id)(time) == capabilities_at(start, id, time) + recorded(
            updates,
            id,
        )(time)
    &&& forall|id: u64| !start.contains_key(id) ==> is_zero(#[trigger] recorded(state.pending, id))
    &&& forall|source: u64| is_zero(#[trigger] recorded(state.storage, source))
    &&& forall|i: int|
        0 <= i < state.net.len() ==> is_zero((#[trigger] state.net[i]).1) && within.contains(
            state.net[i].0,
        )
}

/// A step moves no read frontier.
#[verifier::spinoff_prover]
proof fn lemma_still_step<L>(
    state: Propagation<L>,
    storage_ids: Set<u64>,
    start: Map<u64, CollectionModel<L>>,
    updates: Map<u64, Counts>,
    within: Set<u64>,
)
    requires
        moves_none(start, updates),
        closed_below(start, within),
        still(state, start, updates, within),
        !state.pending.is_empty(),
    ensures
        still(state.step(storage_ids), start, updates, within),
{
    lemma_pending_greatest(state);
    let first = greatest(state.pending.dom());
    let rest = state.pending.remove(first);
    let next = state.step(storage_ids);
    assert(rest.dom() =~= state.pending.dom().remove(first));
    assert(next.collections.dom() =~= start.dom());
    if state.collections.contains_key(first) {
        let before = state.collections[first];
        let after = before.with_changes(state.pending[first]);
        let move_ = moved(before.read_frontier(), after.read_frontier());
        let wanted = if updates.contains_key(first) {
            start[first].with_changes(updates[first]).read_capabilities
        } else {
            start[first].read_capabilities
        };
        assert(start.contains_key(first));
        assert(after.read_capabilities =~= wanted) by {
            assert forall|time: u64| #[trigger] (after.read_capabilities)(time) == wanted(time) by {
                assert(capabilities_at(state.collections, first, time) + recorded(
                    state.pending,
                    first,
                )(time) == capabilities_at(start, first, time) + recorded(updates, first)(time));
            }
        }
        assert(after.read_frontier() == start[first].read_frontier());
        assert(is_zero(move_));
        lemma_recorded_finite(rest, before.compute_dependencies, move_);
        lemma_recorded_within(rest, before.compute_dependencies, move_, within);
        assert forall|id: u64, time: u64|
            start.contains_key(id) implies #[trigger] capabilities_at(next.collections, id, time)
            + recorded(next.pending, id)(time) == capabilities_at(start, id, time) + recorded(
            updates,
            id,
        )(time) by {
            assert(capabilities_at(state.collections, id, time) + recorded(state.pending, id)(time)
                == capabilities_at(start, id, time) + recorded(updates, id)(time));
            lemma_recorded_for_all(rest, before.compute_dependencies, move_, id, time);
            assert(move_(time) == 0);
            let n = occurrences(before.compute_dependencies, id);
            assert(n * 0 == 0) by (nonlinear_arith);
        }
        assert forall|id: u64| !start.contains_key(id) implies is_zero(
            #[trigger] recorded(next.pending, id),
        ) by {
            assert(is_zero(recorded(state.pending, id)));
            assert forall|time: u64| #[trigger] recorded(next.pending, id)(time) == 0 by {
                lemma_recorded_for_all(rest, before.compute_dependencies, move_, id, time);
                assert(recorded(state.pending, id)(time) == 0);
                assert(move_(time) == 0);
                let n = occurrences(before.compute_dependencies, id);
                assert(n * 0 == 0) by (nonlinear_arith);
            }
        }
        assert forall|source: u64| is_zero(#[trigger] recorded(next.storage, source)) by {
            assert(is_zero(recorded(state.storage, source)));
            assert forall|time: u64| #[trigger] recorded(next.storage, source)(time) == 0 by {
                lemma_recorded_for_all(
                    state.storage,
                    before.storage_dependencies,
                    move_,
                    source,
                    time,
                );
                assert(recorded(state.storage, source)(time) == 0);
                assert(move_(time) == 0);
                let n = occurrences(before.storage_dependencies, source);
                assert(n * 0 == 0) by (nonlinear_arith);
            }
        }
    } else {
        assert(is_zero(recorded(state.pending, first)));
        assert forall|id: u64, time: u64|
            start.contains_key(id) implies #[trigger] capabilities_at(next.collections, id, time)
            + recorded(next.pending, id)(time) == capabilities_at(start, id, time) + recorded(
            updates,
            id,
        )(time) by {
            assert(capabilities_at(state.collections, id, time) + recorded(state.pending, id)(time)
                == capabilities_at(start, id, time) + recorded(updates, id)(time));
        }
        assert forall|id: u64| !start.contains_key(id) implies is_zero(
            #[trigger] recorded(next.pending, id),
        ) by {
            assert(is_zero(recorded(state.pending, id)));
        }
        assert forall|source: u64| is_zero(#[trigger] recorded(next.storage, source)) by {
            assert(is_zero(recorded(state.storage, source)));
            assert forall|time: u64| #[trigger] recorded(next.storage, source)(time) == 0 by {
                assert(recorded(state.storage, source)(time) == 0);
                assert(recorded(state.pending, first)(time) == 0);
            }
        }
    }
}

/// Recording changes for identifiers of a set leaves records for none but these.
pub proof fn lemma_recorded_within(
    changes: Map<u64, Counts>,
    ids: Seq<u64>,
    more: Counts,
    within: Set<u64>,
)
    requires
        changes.dom().subset_of(within),
        forall|i: int| 0 <= i < ids.len() ==> within.contains(#[trigger] ids[i]),
    ensures
        crate::changes::add_to_all(changes, ids, more).dom().subset_of(within),
    decreases ids.len(),
{
    if ids.len() > 0 {
        let front = ids.drop_last();
        assert forall|i: int| 0 <= i < front.len() implies within.contains(#[trigger] front[i]) by {
            assert(front[i] == ids[i]);
        }
        lemma_recorded_within(changes, front, more, within);
        assert(within.contains(ids[ids.len() - 1]));
    }
}

/// Any number of steps moves no read frontier.
proof fn lemma_still_steps<L>(
    state: Propagation<L>,
    storage_ids: Set<u64>,
    start: Map<u64, CollectionModel<L>>,
    updates: Map<u64, Counts>,
    within: Set<u64>,
    n: nat,
)
    requires
        moves_none(start, updates),
        closed_below(start, within),
        still(state, start, updates, within),
    ensures
        still(state.steps(storage_ids, n), start, updates, within),
    decreases n,
{
    if n > 0 {
        lemma_still_steps(state, storage_ids, start, updates, within, (n - 1) as nat);
        let before = state.steps(storage_ids, (n - 1) as nat);
        if !before.pending.is_empty() {
            lemma_still_step(before, storage_ids, start, updates, within);
        }
    }
}

/// Changes that move no read frontier change the read capabilities that they are for and nothing
/// else: no replica may forget anything, storage is asked for nothing, and the only collections
/// that go are among those that the changed ones depend on, and could be dropped before.
pub proof fn lemma_quiet<P, L: FrontierLogic>(
    state: InstanceModel<P, L>,
    storage_ids: Set<u64>,
    updates: Map<u64, Counts>,
    within: Set<u64>,
)
    requires
        acyclic(dependencies(state.collections)),
        updates.dom().finite(),
        updates.dom().subset_of(within),
        moves_none(state.collections, updates),
        closed_below(state.collections, within),
    ensures
        ({
            let after = state.update_read_capabilities(storage_ids, updates);
            &&& forall|id: u64| #[trigger]
                after.collections.contains_key(id) ==> state.collections.contains_key(id)
                    && after.collections[id] == if updates.contains_key(id) {
                    state.collections[id].with_changes(updates[id])
                } else {
                    state.collections[id]
                }
            &&& forall|id: u64| #[trigger]
                state.collections.contains_key(id) && !after.collections.contains_key(id)
                    ==> within.contains(id) && state.collections[id].is_droppable()
            &&& without_compaction(state.actions, after.actions)
            &&& forall|source: u64, time: u64| #[trigger]
                asked_at(after.actions, source, time) == asked_at(state.actions, source, time)
            &&& after.history == state.history
        }),
{
    let start = state.propagation(updates);
    let collections = state.collections;
    assert(still(start, collections, updates, within)) by {
        assert forall|id: u64| !collections.contains_key(id) implies is_zero(
            #[trigger] recorded(start.pending, id),
        ) by {
            assert(!updates.contains_key(id));
        }
    }
    lemma_settles(start, storage_ids);
    let n = start.steps_to_settle(storage_ids);
    lemma_settled(start, storage_ids, n);
    lemma_still_steps(start, storage_ids, collections, updates, within, n);
    law_capabilities_change_alone(state, storage_ids, updates);
    let end = start.settled(storage_ids);
    let after = state.update_read_capabilities(storage_ids, updates);
    let pick = |visit: (u64, Counts)| !is_zero(visit.1);
    lemma_picked(end.net, pick);
    assert(end.net.filter(pick).len() == 0) by {
        if end.net.filter(pick).len() > 0 {
            let visit = end.net.filter(pick)[0];
            assert(end.net.contains(visit));
            let i = choose|i: int| 0 <= i < end.net.len() && end.net[i] == visit;
            assert(is_zero(end.net[i].1));
        }
    }
    assert(compactions(end.collections, end.net).len() == 0);
    assert forall|id: u64| #[trigger]
        after.collections.contains_key(id) implies state.collections.contains_key(id)
        && after.collections[id] == if updates.contains_key(id) {
        state.collections[id].with_changes(updates[id])
    } else {
        state.collections[id]
    } by {
        let wanted = if updates.contains_key(id) {
            state.collections[id].with_changes(updates[id])
        } else {
            state.collections[id]
        };
        assert(end.collections[id].read_capabilities =~= wanted.read_capabilities) by {
            assert forall|time: u64| #[trigger]
                (end.collections[id].read_capabilities)(time) == (wanted.read_capabilities)(
                    time,
                ) by {
                assert(capabilities_at(end.collections, id, time) + recorded(end.pending, id)(time)
                    == capabilities_at(collections, id, time) + recorded(updates, id)(time));
                assert(!end.pending.contains_key(id));
            }
        }
    }
    assert forall|id: u64| #[trigger]
        state.collections.contains_key(id) && !after.collections.contains_key(id) implies
        within.contains(id) && state.collections[id].is_droppable() by {
        assert(visited(end.net).contains(id));
        let i = choose|i: int| 0 <= i < end.net.len() && (#[trigger] end.net[i]).0 == id;
        assert(within.contains(end.net[i].0));
        let before = state.collections[id];
        let then = end.collections[id];
        assert(then.is_droppable());
        assert(then.replica_write_frontiers == before.replica_write_frontiers);
        assert(then.read_frontier() == before.read_frontier());
        assert forall|replica: u64| #[trigger]
            before.replica_write_frontiers.contains_key(
                replica,
            ) implies before.replica_write_frontiers[replica].len() == 0 by {
            assert(then.replica_write_frontiers.contains_key(replica));
        }
    }
    assert forall|source: u64, time: u64| #[trigger]
        asked_at(after.actions, source, time) == asked_at(state.actions, source, time) by {
        if !end.storage.is_empty() {
            lemma_asked_more(
                state.actions,
                ActionModel::UpdateStorageReadCapabilities(end.storage),
                source,
                time,
            );
            assert(is_zero(recorded(end.storage, source)));
            assert(recorded(end.storage, source)(time) == 0);
        }
    }
}

} // verus!
