//! How changes to read capabilities travel from a collection to those that it depends on.
use vstd::prelude::*;

use crate::changes::{add_to, add_to_all, moved, Counts};
use crate::collection::CollectionModel;
use crate::ordered::{greatest, is_greatest, lemma_greatest};
use crate::sums::{lemma_sum_bounds, lemma_sum_insert, lemma_sum_remove, sum_over};

verus! {

/// Changes on their way through the collections.
#[verifier::ext_equal]
pub struct Propagation<L> {
    /// The compute collections.
    pub collections: Map<u64, CollectionModel<L>>,
    /// The changes that still have to be applied.
    pub pending: Map<u64, Counts>,
    /// The changes that concern storage collections.
    pub storage: Map<u64, Counts>,
    /// The compute collections that were visited, and how the read frontier of each moved.
    pub net: Seq<(u64, Counts)>,
    /// The magnitudes of all the changes that were ever recorded, added up.
    pub spent: nat,
}

impl<L> Propagation<L> {
    /// The pending changes with the greatest identifier are taken. If they are for a compute
    /// collection, they are applied to it, and the move of its read frontier becomes a pending
    /// change of each collection that it depends on. If they are for a storage collection, they
    /// are set aside. Otherwise they are forgotten.
    pub open spec fn step(self, storage_ids: Set<u64>) -> Self {
        let id = greatest(self.pending.dom());
        let rest = self.pending.remove(id);
        if self.collections.contains_key(id) {
            let before = self.collections[id];
            let after = before.with_changes(self.pending[id]);
            let move_ = moved(before.read_frontier(), after.read_frontier());
            Propagation {
                collections: self.collections.insert(id, after),
                pending: add_to_all(rest, before.compute_dependencies, move_),
                storage: add_to_all(self.storage, before.storage_dependencies, move_),
                net: self.net.push((id, move_)),
                spent: self.spent + 2 * (before.compute_dependencies.len()
                    + before.storage_dependencies.len()),
            }
        } else if storage_ids.contains(id) {
            Propagation {
                pending: rest,
                storage: add_to(self.storage, id, self.pending[id]),
                ..self
            }
        } else {
            Propagation { pending: rest, ..self }
        }
    }

    /// At most `n` steps, ending when nothing is pending.
    pub open spec fn steps(self, storage_ids: Set<u64>, n: nat) -> Self
        decreases n,
    {
        if n == 0 {
            self
        } else {
            let before = self.steps(storage_ids, (n - 1) as nat);
            if before.pending.is_empty() {
                before
            } else {
                before.step(storage_ids)
            }
        }
    }

    /// Whether some number of steps leaves nothing pending.
    pub open spec fn settles(self, storage_ids: Set<u64>) -> bool {
        exists|n: nat| (#[trigger] self.steps(storage_ids, n)).pending.is_empty()
    }

    /// The number of steps that leaves nothing pending.
    pub open spec fn steps_to_settle(self, storage_ids: Set<u64>) -> nat {
        choose|n: nat| (#[trigger] self.steps(storage_ids, n)).pending.is_empty()
    }

    /// What is there when nothing is pending any more.
    pub open spec fn settled(self, storage_ids: Set<u64>) -> Self {
        self.steps(storage_ids, self.steps_to_settle(storage_ids))
    }
}

/// Once nothing is pending, further steps change nothing.
pub proof fn lemma_steps_stable<L>(
    start: Propagation<L>,
    storage_ids: Set<u64>,
    n: nat,
    m: nat,
)
    requires
        start.steps(storage_ids, n).pending.is_empty(),
        n <= m,
    ensures
        start.steps(storage_ids, m) == start.steps(storage_ids, n),
    decreases m,
{
    if n < m {
        lemma_steps_stable(start, storage_ids, n, (m - 1) as nat);
    }
}

/// Any number of steps that leaves nothing pending leads to the settled state.
pub proof fn lemma_settled<L>(start: Propagation<L>, storage_ids: Set<u64>, n: nat)
    requires
        start.steps(storage_ids, n).pending.is_empty(),
    ensures
        start.settled(storage_ids) == start.steps(storage_ids, n),
        start.settled(storage_ids).pending.is_empty(),
{
    let m = start.steps_to_settle(storage_ids);
    assert(start.steps(storage_ids, m).pending.is_empty());
    if n <= m {
        lemma_steps_stable(start, storage_ids, n, m);
    } else {
        lemma_steps_stable(start, storage_ids, m, n);
    }
}

/// A step and then `n` more are `n + 1` steps.
pub proof fn lemma_first_step<L>(start: Propagation<L>, storage_ids: Set<u64>, n: nat)
    requires
        !start.pending.is_empty(),
    ensures
        start.steps(storage_ids, n + 1) == start.step(storage_ids).steps(storage_ids, n),
    decreases n,
{
    if n == 0 {
        assert(start.steps(storage_ids, 0) == start);
    } else {
        lemma_first_step(start, storage_ids, (n - 1) as nat);
    }
}

/// Which compute collections each compute collection depends on.
pub open spec fn dependencies<L>(collections: Map<u64, CollectionModel<L>>) -> Map<u64, Seq<u64>> {
    collections.map_values(|collection: CollectionModel<L>| collection.compute_dependencies)
}

/// Whether every collection ranks above those that it depends on.
pub open spec fn ranked(dependencies: Map<u64, Seq<u64>>, rank: spec_fn(u64) -> nat) -> bool {
    forall|id: u64, i: int|
        dependencies.contains_key(id) && 0 <= i < dependencies[id].len() ==> rank(
            #[trigger] dependencies[id][i],
        ) < rank(id)
}

/// Whether no collection depends on itself, directly or through others.
pub open spec fn acyclic(dependencies: Map<u64, Seq<u64>>) -> bool {
    exists|rank: spec_fn(u64) -> nat| ranked(dependencies, rank)
}

/// The number of paths that lead down from a collection.
pub open spec fn weight(dependencies: Map<u64, Seq<u64>>, rank: spec_fn(u64) -> nat, id: u64) -> nat
    decreases rank(id), dependencies[id].len() + 1,
    when ranked(dependencies, rank)
{
    if dependencies.contains_key(id) {
        1 + weights(dependencies, rank, id, dependencies[id].len())
    } else {
        1
    }
}

/// The number of paths that lead down from the first `n` dependencies of a collection.
pub open spec fn weights(
    dependencies: Map<u64, Seq<u64>>,
    rank: spec_fn(u64) -> nat,
    id: u64,
    n: nat,
) -> nat
    decreases rank(id), n,
    when ranked(dependencies, rank) && dependencies.contains_key(id) && n <= dependencies[id].len()
{
    if n == 0 {
        0
    } else {
        weights(dependencies, rank, id, (n - 1) as nat) + weight(
            dependencies,
            rank,
            dependencies[id][n - 1],
        )
    }
}

/// The number of paths that lead down, as a term of a sum.
pub open spec fn weight_term(
    dependencies: Map<u64, Seq<u64>>,
    rank: spec_fn(u64) -> nat,
) -> spec_fn(u64) -> int {
    |id: u64| weight(dependencies, rank, id) as int
}

/// Recording changes for the first `n` dependencies of a collection adds no more paths than lead
/// down from these.
proof fn lemma_weights_of_recorded(
    dependencies: Map<u64, Seq<u64>>,
    rank: spec_fn(u64) -> nat,
    id: u64,
    n: nat,
    pending: Map<u64, Counts>,
    change: Counts,
)
    requires
        ranked(dependencies, rank),
        dependencies.contains_key(id),
        n <= dependencies[id].len(),
        pending.dom().finite(),
    ensures
        add_to_all(pending, dependencies[id].take(n as int), change).dom().finite(),
        sum_over(
            add_to_all(pending, dependencies[id].take(n as int), change).dom(),
            weight_term(dependencies, rank),
        ) <= sum_over(pending.dom(), weight_term(dependencies, rank)) + weights(
            dependencies,
            rank,
            id,
            n,
        ),
    decreases n,
{
    let ids = dependencies[id].take(n as int);
    if n > 0 {
        let front = dependencies[id].take(n - 1);
        lemma_weights_of_recorded(dependencies, rank, id, (n - 1) as nat, pending, change);
        assert(ids.drop_last() =~= front);
        let before = add_to_all(pending, front, change).dom();
        let last = ids.last();
        assert(add_to_all(pending, ids, change).dom() =~= before.insert(last));
        if before.contains(last) {
            assert(before.insert(last) =~= before);
        } else {
            lemma_sum_insert(before, weight_term(dependencies, rank), last);
        }
    }
}

/// A step leaves fewer paths to walk.
pub proof fn lemma_step_descends<L>(
    state: Propagation<L>,
    storage_ids: Set<u64>,
    rank: spec_fn(u64) -> nat,
)
    requires
        ranked(dependencies(state.collections), rank),
        state.pending.dom().finite(),
        !state.pending.is_empty(),
    ensures
        dependencies(state.step(storage_ids).collections) == dependencies(state.collections),
        state.step(storage_ids).pending.dom().finite(),
        sum_over(
            state.step(storage_ids).pending.dom(),
            weight_term(dependencies(state.collections), rank),
        ) < sum_over(
            state.pending.dom(),
            weight_term(dependencies(state.collections), rank),
        ),
{
    let deps = dependencies(state.collections);
    let term = weight_term(deps, rank);
    lemma_pending_greatest(state);
    let id = greatest(state.pending.dom());
    let rest = state.pending.remove(id);
    assert(rest.dom() =~= state.pending.dom().remove(id));
    lemma_sum_remove(state.pending.dom(), term, id);
    assert(dependencies(state.step(storage_ids).collections) =~= deps);
    if state.collections.contains_key(id) {
        let before = state.collections[id];
        let after = before.with_changes(state.pending[id]);
        let move_ = moved(before.read_frontier(), after.read_frontier());
        let n = deps[id].len();
        lemma_weights_of_recorded(deps, rank, id, n, rest, move_);
        assert(deps[id].take(n as int) =~= before.compute_dependencies);
    }
}

/// Where something is pending, there is a greatest pending identifier.
pub proof fn lemma_pending_greatest<L>(state: Propagation<L>)
    requires
        state.pending.dom().finite(),
        !state.pending.is_empty(),
    ensures
        is_greatest(state.pending.dom(), greatest(state.pending.dom())),
{
    assert(state.pending.dom().len() > 0) by {
        if state.pending.dom().len() == 0 {
            state.pending.dom().lemma_len0_is_empty();
        }
    }
    lemma_greatest(state.pending.dom());
}

/// Where no collection depends on itself, changes settle.
pub proof fn lemma_settles<L>(state: Propagation<L>, storage_ids: Set<u64>)
    requires
        acyclic(dependencies(state.collections)),
        state.pending.dom().finite(),
    ensures
        state.settles(storage_ids),
{
    let rank = choose|rank: spec_fn(u64) -> nat| ranked(dependencies(state.collections), rank);
    lemma_settles_ranked(state, storage_ids, rank);
}

proof fn lemma_settles_ranked<L>(
    state: Propagation<L>,
    storage_ids: Set<u64>,
    rank: spec_fn(u64) -> nat,
)
    requires
        ranked(dependencies(state.collections), rank),
        state.pending.dom().finite(),
    ensures
        state.settles(storage_ids),
    decreases
            sum_over(
                state.pending.dom(),
                weight_term(dependencies(state.collections), rank),
            ),
{
    if state.pending.is_empty() {
        assert(state.steps(storage_ids, 0).pending.is_empty());
    } else {
        let next = state.step(storage_ids);
        lemma_step_descends(state, storage_ids, rank);
        lemma_sum_bounds(next.pending.dom(), weight_term(dependencies(state.collections), rank));
        lemma_settles_ranked(next, storage_ids, rank);
        let n = choose|n: nat| (#[trigger] next.steps(storage_ids, n)).pending.is_empty();
        lemma_first_step(state, storage_ids, n);
        assert(state.steps(storage_ids, n + 1).pending.is_empty());
    }
}

/// What is left of the collections after some are gone is still free of cycles.
pub proof fn lemma_acyclic_less<L>(
    collections: Map<u64, CollectionModel<L>>,
    fewer: Map<u64, CollectionModel<L>>,
)
    requires
        acyclic(dependencies(collections)),
        forall|id: u64| #[trigger]
            fewer.contains_key(id) ==> collections.contains_key(id)
                && fewer[id].compute_dependencies == collections[id].compute_dependencies,
    ensures
        acyclic(dependencies(fewer)),
{
    let rank = choose|rank: spec_fn(u64) -> nat| ranked(dependencies(collections), rank);
    assert(ranked(dependencies(fewer), rank)) by {
        assert forall|id: u64, i: int|
            dependencies(fewer).contains_key(id) && 0 <= i < dependencies(
                fewer,
            )[id].len() implies rank(#[trigger] dependencies(fewer)[id][i]) < rank(id) by {
            assert(fewer.contains_key(id));
            assert(dependencies(collections)[id][i] == dependencies(fewer)[id][i]);
        }
    }
}

} // verus!
