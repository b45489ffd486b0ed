//! What replicas are allowed to forget.
use vstd::prelude::*;

use super::accounts::{held_directly, law_capabilities_change_alone, lemma_settled_accounts};
use super::balance::{lemma_direct_readable, makes_up};
use super::readable::{lemma_accounts_are_readable, lemma_frontiers_advance, lemma_peeks_hold};
use crate::changes::{is_zero, lemma_occurrences, Counts};
use crate::collection::CollectionModel;
use crate::frontier::{frontier_le, reaches, Frontier};
use crate::model::{compactions, InstanceModel};
use crate::ordered::lemma_picked;
use crate::pending::PendingPeek;
use crate::policy::FrontierLogic;
use crate::propagation::Propagation;

verus! {

/// Only collections that exist are visited.
proof fn lemma_visits_exist<L>(state: Propagation<L>, storage_ids: Set<u64>, n: nat)
    requires
        state.net.len() == 0,
    ensures
        forall|i: int|
            0 <= i < state.steps(storage_ids, n).net.len() ==> state.collections.contains_key(
                (#[trigger] state.steps(storage_ids, n).net[i]).0,
            ),
        state.steps(storage_ids, n).collections.dom() == state.collections.dom(),
    decreases n,
{
    if n > 0 {
        lemma_visits_exist(state, storage_ids, (n - 1) as nat);
        let before = state.steps(storage_ids, (n - 1) as nat);
        let after = state.steps(storage_ids, n);
        if !before.pending.is_empty() {
            assert(after.collections.dom() =~= before.collections.dom());
            assert forall|i: int| 0 <= i < after.net.len() implies state.collections.contains_key(
                (#[trigger] after.net[i]).0,
            ) by {
                if i < before.net.len() {
                    assert(after.net[i] == before.net[i]);
                }
            }
        }
    }
}

/// Whether a collection with these readers and peeks may forget the times before `frontier`: no
/// pending peek reads it at such a time, and no collection that reads it is readable there.
pub open spec fn may_forget<P, L>(
    collections: Map<u64, CollectionModel<L>>,
    peeks: Map<u128, PendingPeek<P>>,
    id: u64,
    frontier: Frontier,
) -> bool {
    &&& forall|uuid: u128| #[trigger]
        peeks.contains_key(uuid) && peeks[uuid].target == id ==> reaches(
            frontier,
            peeks[uuid].time,
        )
    &&& forall|reader: u64| #[trigger]
        collections.contains_key(reader) && collections[reader].compute_dependencies.contains(id)
            ==> frontier_le(frontier, collections[reader].read_frontier())
    &&& frontier_le(frontier, collections[id].implied_capability)
}

/// When changes balance the accounts, replicas are only told to forget what may be forgotten:
/// each collection that is named exists and is allowed to forget what lies before its read
/// frontier, which did not move back and which no pending peek, no reader and no policy needs to
/// be earlier.
pub proof fn law_only_the_unneeded_is_forgotten<P, L: FrontierLogic>(
    state: InstanceModel<P, L>,
    storage_ids: Set<u64>,
    updates: Map<u64, Counts>,
    peeks: Map<u128, PendingPeek<P>>,
)
    requires
        makes_up(state, updates, peeks),
    ensures
        ({
            let end = state.propagation(updates).settled(storage_ids);
            let told = compactions(end.collections, end.net);
            forall|i: int|
                0 <= i < told.len() ==> {
                    let (id, frontier) = #[trigger] told[i];
                    &&& state.collections.contains_key(id)
                    &&& frontier == end.collections[id].read_frontier()
                    &&& frontier_le(state.collections[id].read_frontier(), frontier)
                    &&& may_forget(end.collections, peeks, id, frontier)
                }
        }),
{
    let start = state.propagation(updates);
    let end = start.settled(storage_ids);
    let direct = held_directly(state.collections, peeks);
    let told = compactions(end.collections, end.net);
    lemma_direct_readable(state.collections, peeks);
    lemma_settled_accounts(state, storage_ids, updates, direct);
    law_capabilities_change_alone(state, storage_ids, updates);
    lemma_visits_exist(start, storage_ids, start.steps_to_settle(storage_ids));
    assert forall|other: u64| #[trigger]
        end.collections.contains_key(other) implies end.collections[
        other
    ].compute_dependencies == state.collections[other].compute_dependencies by {
        assert(state.collections.contains_key(other));
    }
    lemma_frontiers_advance(state.collections, end.collections, direct);
    lemma_accounts_are_readable(end.collections, direct);
    let pick = |visit: (u64, Counts)| !is_zero(visit.1);
    lemma_picked(end.net, pick);
    assert forall|i: int| 0 <= i < told.len() implies {
        let (id, frontier) = #[trigger] told[i];
        &&& state.collections.contains_key(id)
        &&& frontier == end.collections[id].read_frontier()
        &&& frontier_le(state.collections[id].read_frontier(), frontier)
        &&& may_forget(end.collections, peeks, id, frontier)
    } by {
        let visit = end.net.filter(pick)[i];
        let (id, frontier) = told[i];
        assert(end.net.contains(visit));
        let j = choose|j: int| 0 <= j < end.net.len() && end.net[j] == visit;
        assert(state.collections.contains_key(end.net[j].0));
        assert(end.collections.contains_key(id));
        assert forall|uuid: u128| #[trigger]
            peeks.contains_key(uuid) && peeks[uuid].target == id implies reaches(
            frontier,
            peeks[uuid].time,
        ) by {
            lemma_occurrences(state.collections[id].implied_capability, peeks[uuid].time);
            lemma_peeks_hold(peeks, id, peeks[uuid].time);
            assert(direct(id, peeks[uuid].time) > 0);
        }
        let implied = end.collections[id].implied_capability;
        assert forall|k: int| 0 <= k < implied.len() implies reaches(
            frontier,
            #[trigger] implied[k],
        ) by {
            lemma_occurrences(implied, implied[k]);
            lemma_peeks_hold(peeks, id, implied[k]);
            assert(implied.contains(implied[k]));
            assert(direct(id, implied[k]) > 0);
        }
    }
}

} // verus!
