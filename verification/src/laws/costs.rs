//! How much is recorded when read capabilities change.
use vstd::prelude::*;

use crate::changes::Counts;
use crate::model::InstanceModel;
use crate::ordered::{greatest, lemma_greatest};
use crate::policy::FrontierLogic;
use crate::propagation::{
    dependencies, lemma_first_step, lemma_settled, lemma_settles, lemma_step_descends, ranked,
    weight_term, Propagation,
};
use crate::sums::{lemma_sum_bounds, sum_over};

verus! {

/// A change to a collection that reads no other compute collection records two changes for each
/// storage collection that it reads, and a change to anything else records none.
pub proof fn law_cost_of_one_change<P, L: FrontierLogic>(
    state: InstanceModel<P, L>,
    storage_ids: Set<u64>,
    id: u64,
    change: Counts,
)
    requires
        state.collections.contains_key(id) ==> state.collections[id].compute_dependencies.len()
            == 0,
    ensures
        state.update_read_capabilities(
            storage_ids,
            Map::<u64, Counts>::empty().insert(id, change),
        ).spent == state.spent + if state.collections.contains_key(id) {
            2 * state.collections[id].storage_dependencies.len()
        } else {
            0
        },
{
    let updates = Map::<u64, Counts>::empty().insert(id, change);
    let start = state.propagation(updates);
    assert(updates.dom() =~= Set::<u64>::empty().insert(id));
    lemma_greatest(updates.dom());
    assert(greatest(updates.dom()) == id);
    assert(updates.dom().contains(id));
    let next = start.step(storage_ids);
    assert(next.pending.dom() =~= Set::empty());
    lemma_first_step(start, storage_ids, 0);
    assert(start.steps(storage_ids, 1) == next);
    lemma_settled(start, storage_ids, 1);
}

/// Settling changes records at most twice the width of a collection for each path that leads
/// down from a collection that is changed.
proof fn lemma_settling_cost<L>(
    state: Propagation<L>,
    storage_ids: Set<u64>,
    rank: spec_fn(u64) -> nat,
    width: nat,
)
    requires
        ranked(dependencies(state.collections), rank),
        state.pending.dom().finite(),
        forall|id: u64| #[trigger]
            state.collections.contains_key(id) ==> state.collections[id].compute_dependencies.len()
                + state.collections[id].storage_dependencies.len() <= width,
    ensures
        state.settled(storage_ids).spent <= state.spent + 2 * width * sum_over(
            state.pending.dom(),
            weight_term(dependencies(state.collections), rank),
        ),
    decreases
            sum_over(
                state.pending.dom(),
                weight_term(dependencies(state.collections), rank),
            ),
{
    let term = weight_term(dependencies(state.collections), rank);
    let paths = sum_over(state.pending.dom(), term);
    lemma_sum_bounds(state.pending.dom(), term);
    if state.pending.is_empty() {
        assert(state.steps(storage_ids, 0).pending.is_empty());
        lemma_settled(state, storage_ids, 0);
        assert(2 * width * paths >= 0) by (nonlinear_arith)
            requires
                paths >= 0,
        ;
    } else {
        let next = state.step(storage_ids);
        lemma_step_descends(state, storage_ids, rank);
        lemma_sum_bounds(next.pending.dom(), term);
        let fewer = sum_over(next.pending.dom(), term);
        assert forall|id: u64| #[trigger]
            next.collections.contains_key(id) implies next.collections[
            id
        ].compute_dependencies.len() + next.collections[id].storage_dependencies.len()
            <= width by {
            assert(dependencies(next.collections).contains_key(id));
            assert(dependencies(state.collections).contains_key(id));
            assert(state.collections.contains_key(id));
        }
        lemma_settling_cost(next, storage_ids, rank, width);
        lemma_settles(next, storage_ids);
        let n = next.steps_to_settle(storage_ids);
        lemma_settled(next, storage_ids, n);
        lemma_first_step(state, storage_ids, n);
        lemma_settled(state, storage_ids, n + 1);
        assert(next.spent <= state.spent + 2 * width);
        assert(2 * width * fewer + 2 * width <= 2 * width * paths) by (nonlinear_arith)
            requires
                fewer + 1 <= paths,
        ;
    }
}

/// What changes to read capabilities record is bounded by the shape of the collections alone: at
/// most twice the width of a collection for each path that leads down from one that is changed.
pub proof fn law_cost_is_bounded<P, L: FrontierLogic>(
    state: InstanceModel<P, L>,
    storage_ids: Set<u64>,
    updates: Map<u64, Counts>,
    rank: spec_fn(u64) -> nat,
    width: nat,
)
    requires
        ranked(dependencies(state.collections), rank),
        updates.dom().finite(),
        forall|id: u64| #[trigger]
            state.collections.contains_key(id) ==> state.collections[id].compute_dependencies.len()
                + state.collections[id].storage_dependencies.len() <= width,
    ensures
        state.update_read_capabilities(storage_ids, updates).spent <= state.spent + 2 * width
            * sum_over(updates.dom(), weight_term(dependencies(state.collections), rank)),
{
    lemma_settling_cost(state.propagation(updates), storage_ids, rank, width);
}

} // verus!
