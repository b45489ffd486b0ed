//! What is held readable is readable, and read frontiers never move back.
use vstd::prelude::*;

use super::accounts::{
    accounted_when_settled, capabilities_at, held_by, held_by_peeks, held_by_readers, reads_at,
};
use crate::changes::{is_least, lemma_occurrences, lower, occurrences, recorded, Counts};
use crate::collection::CollectionModel;
use crate::frontier::{frontier_le, lemma_reaches_through, reaches};
use crate::pending::PendingPeek;
use crate::propagation::{dependencies, ranked};
use crate::sums::{lemma_sum_bounds, lemma_sum_of_equals, lemma_sum_same, sum_over};

verus! {

/// A time that counts more than zero is reached by the frontier of the counts.
pub proof fn lemma_lower_reaches(counts: Counts, time: u64)
    requires
        counts(time) > 0,
    ensures
        reaches(lower(counts), time),
    decreases time,
{
    if is_least(counts, time) {
        let least = choose|other: u64| is_least(counts, other);
        if time < least {
            assert(counts(time) <= 0);
        }
        assert(lower(counts)[0] <= time);
    } else {
        let less = choose|other: u64| other < time && #[trigger] counts(other) > 0;
        lemma_lower_reaches(counts, less);
        let i = choose|i: int| 0 <= i < lower(counts).len() && #[trigger] lower(counts)[i] <= less;
        assert(lower(counts)[i] <= time);
    }
}

/// The times of the frontier of counts count more than zero.
pub proof fn lemma_lower_counts(counts: Counts)
    ensures
        forall|i: int| 0 <= i < lower(counts).len() ==> counts(#[trigger] lower(counts)[i]) > 0,
{
}

/// No reader holds less than nothing.
pub proof fn lemma_readers_hold<L>(
    collections: Map<u64, CollectionModel<L>>,
    id: u64,
    time: u64,
)
    requires
        collections.dom().finite(),
    ensures
        held_by_readers(collections, id, time) >= 0,
        forall|reader: u64| #[trigger]
            collections.contains_key(reader)
                && collections[reader].compute_dependencies.contains(id)
                && collections[reader].read_frontier().contains(time) ==> held_by_readers(
                collections,
                id,
                time,
            ) > 0,
        held_by_readers(collections, id, time) > 0 ==> exists|reader: u64|
            #[trigger]
            collections.contains_key(reader)
                && collections[reader].compute_dependencies.contains(id)
                && collections[reader].read_frontier().contains(time),
{
    let term = held_by(collections, id, time);
    assert forall|reader: u64| #[trigger] collections.dom().contains(reader) implies term(reader)
        >= 0 && (term(reader) > 0 <==> collections[reader].compute_dependencies.contains(id)
        && collections[reader].read_frontier().contains(time)) by {
        lemma_occurrences(collections[reader].compute_dependencies, id);
        lemma_occurrences(collections[reader].read_frontier(), time);
        let n = occurrences(collections[reader].compute_dependencies, id);
        let m = occurrences(collections[reader].read_frontier(), time);
        assert(n * m >= 0 && (n * m > 0 <==> n > 0 && m > 0)) by (nonlinear_arith)
            requires
                n >= 0,
                m >= 0,
        ;
    }
    lemma_sum_bounds(collections.dom(), term);
    assert forall|reader: u64| #[trigger]
        collections.contains_key(reader) && collections[reader].compute_dependencies.contains(id)
            && collections[reader].read_frontier().contains(time) implies held_by_readers(
        collections,
        id,
        time,
    ) > 0 by {
        assert(collections.dom().contains(reader));
    }
    if held_by_readers(collections, id, time) > 0 && !exists|reader: u64|
        #[trigger]
        collections.contains_key(reader) && collections[reader].compute_dependencies.contains(id)
            && collections[reader].read_frontier().contains(time) {
        assert forall|reader: u64| #[trigger] collections.dom().contains(reader) implies term(
            reader,
        ) == 0 by {
            assert(collections.contains_key(reader));
        }
        lemma_sum_of_equals(collections.dom(), term, 0);
        assert(collections.dom().len() * 0 == 0) by (nonlinear_arith);
    }
}

/// No peek holds less than nothing, and one that reads `id` at `time` holds something.
pub proof fn lemma_peeks_hold<P>(peeks: Map<u128, PendingPeek<P>>, id: u64, time: u64)
    requires
        peeks.dom().finite(),
    ensures
        held_by_peeks(peeks, id, time) >= 0,
        forall|uuid: u128| #[trigger]
            peeks.contains_key(uuid) && peeks[uuid].target == id && peeks[uuid].time == time
                ==> held_by_peeks(peeks, id, time) > 0,
        held_by_peeks(peeks, id, time) > 0 ==> exists|uuid: u128| #[trigger]
            peeks.contains_key(uuid) && peeks[uuid].target == id && peeks[uuid].time == time,
{
    let term = reads_at(peeks, id, time);
    lemma_sum_bounds(peeks.dom(), term);
    assert forall|uuid: u128| #[trigger]
        peeks.contains_key(uuid) && peeks[uuid].target == id && peeks[uuid].time
            == time implies held_by_peeks(peeks, id, time) > 0 by {
        assert(peeks.dom().contains(uuid));
    }
    if held_by_peeks(peeks, id, time) > 0 && !exists|uuid: u128| #[trigger]
        peeks.contains_key(uuid) && peeks[uuid].target == id && peeks[uuid].time == time {
        assert forall|uuid: u128| #[trigger] peeks.dom().contains(uuid) implies term(uuid)
            == 0 by {
            assert(peeks.contains_key(uuid));
        }
        lemma_sum_of_equals(peeks.dom(), term, 0);
        assert(peeks.dom().len() * 0 == 0) by (nonlinear_arith);
    }
}

/// Whether every collection is readable at all times at which a collection that reads it is.
pub open spec fn readable_for_readers<L>(collections: Map<u64, CollectionModel<L>>) -> bool {
    forall|reader: u64, id: u64| #[trigger]
        collections.contains_key(reader) && #[trigger] collections.contains_key(id)
            && collections[reader].compute_dependencies.contains(id) ==> frontier_le(
            collections[id].read_frontier(),
            collections[reader].read_frontier(),
        )
}

/// Whether every collection is readable at all times at which `direct` says that capabilities
/// are held.
pub open spec fn readable_directly<L>(
    collections: Map<u64, CollectionModel<L>>,
    direct: spec_fn(u64, u64) -> int,
) -> bool {
    forall|id: u64, time: u64|
        collections.contains_key(id) && #[trigger] direct(id, time) > 0 ==> reaches(
            collections[id].read_frontier(),
            time,
        )
}

/// Where the accounts are balanced, what is held readable is readable.
pub proof fn lemma_accounts_are_readable<L>(
    collections: Map<u64, CollectionModel<L>>,
    direct: spec_fn(u64, u64) -> int,
)
    requires
        collections.dom().finite(),
        forall|id: u64, time: u64| #[trigger] direct(id, time) >= 0,
        accounted_when_settled(collections, Map::empty(), direct),
    ensures
        readable_for_readers(collections),
        readable_directly(collections, direct),
{
    assert forall|id: u64, time: u64|
        collections.contains_key(id) && #[trigger] direct(id, time) > 0 implies reaches(
        collections[id].read_frontier(),
        time,
    ) by {
        lemma_readers_hold(collections, id, time);
        assert(capabilities_at(collections, id, time) + recorded(
            Map::<u64, Counts>::empty(),
            id,
        )(time) > 0);
        lemma_lower_reaches(collections[id].read_capabilities, time);
    }
    assert forall|reader: u64, id: u64| #[trigger]
        collections.contains_key(reader) && #[trigger] collections.contains_key(id)
            && collections[reader].compute_dependencies.contains(id) implies frontier_le(
        collections[id].read_frontier(),
        collections[reader].read_frontier(),
    ) by {
        let upper = collections[reader].read_frontier();
        assert forall|i: int| 0 <= i < upper.len() implies reaches(
            collections[id].read_frontier(),
            #[trigger] upper[i],
        ) by {
            let time = upper[i];
            assert(upper.contains(time));
            lemma_readers_hold(collections, id, time);
            assert(direct(id, time) >= 0);
            assert(capabilities_at(collections, id, time) + recorded(
                Map::<u64, Counts>::empty(),
                id,
            )(time) > 0);
            lemma_lower_reaches(collections[id].read_capabilities, time);
        }
    }
}

/// The read frontier of one collection does not move back, nor do those of its readers.
proof fn lemma_frontier_advances<L>(
    before: Map<u64, CollectionModel<L>>,
    after: Map<u64, CollectionModel<L>>,
    direct: spec_fn(u64, u64) -> int,
    rank: spec_fn(u64) -> nat,
    top: nat,
    id: u64,
)
    requires
        before.dom().finite(),
        after.dom() == before.dom(),
        forall|other: u64| #[trigger]
            after.contains_key(other) ==> after[other].compute_dependencies
                == before[other].compute_dependencies,
        ranked(dependencies(before), rank),
        forall|other: u64| #[trigger] before.contains_key(other) ==> rank(other) <= top,
        readable_for_readers(before),
        readable_directly(before, direct),
        accounted_when_settled(after, Map::empty(), direct),
        before.contains_key(id),
    ensures
        frontier_le(before[id].read_frontier(), after[id].read_frontier()),
    decreases top - rank(id),
{
    let from = before[id].read_frontier();
    let to = after[id].read_frontier();
    assert forall|i: int| 0 <= i < to.len() implies reaches(from, #[trigger] to[i]) by {
        let time = to[i];
        lemma_lower_counts(after[id].read_capabilities);
        assert(capabilities_at(after, id, time) + recorded(Map::<u64, Counts>::empty(), id)(time)
            == direct(id, time) + held_by_readers(after, id, time));
        assert(capabilities_at(after, id, time) > 0);
        if direct(id, time) > 0 {
            assert(reaches(from, time));
        } else {
            lemma_readers_hold(after, id, time);
            let reader = choose|reader: u64| #[trigger]
                after.contains_key(reader) && after[reader].compute_dependencies.contains(id)
                    && after[reader].read_frontier().contains(time);
            let list = before[reader].compute_dependencies;
            let j = choose|j: int| 0 <= j < list.len() && list[j] == id;
            assert(dependencies(before)[reader][j] == id);
            assert(rank(id) < rank(reader));
            assert(before.contains_key(reader));
            lemma_frontier_advances(before, after, direct, rank, top, reader);
            let k = choose|k: int|
                0 <= k < after[reader].read_frontier().len() && after[reader].read_frontier()[k]
                    == time;
            assert(reaches(before[reader].read_frontier(), after[reader].read_frontier()[k]));
            assert(before.contains_key(id));
            lemma_reaches_through(from, before[reader].read_frontier(), time);
        }
    }
}

/// Where all that is held lies at times that were readable, no read frontier moves back.
pub proof fn lemma_frontiers_advance<L>(
    before: Map<u64, CollectionModel<L>>,
    after: Map<u64, CollectionModel<L>>,
    direct: spec_fn(u64, u64) -> int,
)
    requires
        before.dom().finite(),
        after.dom() == before.dom(),
        forall|other: u64| #[trigger]
            after.contains_key(other) ==> after[other].compute_dependencies
                == before[other].compute_dependencies,
        crate::propagation::acyclic(dependencies(before)),
        readable_for_readers(before),
        readable_directly(before, direct),
        accounted_when_settled(after, Map::empty(), direct),
    ensures
        forall|id: u64| #[trigger]
            before.contains_key(id) ==> frontier_le(
                before[id].read_frontier(),
                after[id].read_frontier(),
            ),
{
    let rank = choose|rank: spec_fn(u64) -> nat| ranked(dependencies(before), rank);
    let term = |id: u64| rank(id) as int;
    lemma_sum_bounds(before.dom(), term);
    let top = sum_over(before.dom(), term) as nat;
    assert forall|other: u64| #[trigger] before.contains_key(other) implies rank(other) <= top by {
        assert(before.dom().contains(other));
        assert(term(other) == rank(other));
    }
    assert forall|id: u64| #[trigger] before.contains_key(id) implies frontier_le(
        before[id].read_frontier(),
        after[id].read_frontier(),
    ) by {
        lemma_frontier_advances(before, after, direct, rank, top, id);
    }
}

/// What is held other than by readers determines the read capabilities of a collection.
proof fn lemma_same_capabilities<L>(
    left: Map<u64, CollectionModel<L>>,
    right: Map<u64, CollectionModel<L>>,
    direct: spec_fn(u64, u64) -> int,
    rank: spec_fn(u64) -> nat,
    top: nat,
    id: u64,
)
    requires
        left.dom().finite(),
        dependencies(left) == dependencies(right),
        ranked(dependencies(left), rank),
        forall|other: u64| #[trigger] left.contains_key(other) ==> rank(other) <= top,
        accounted_when_settled(left, Map::empty(), direct),
        accounted_when_settled(right, Map::empty(), direct),
        left.contains_key(id),
    ensures
        left[id].read_capabilities == right[id].read_capabilities,
    decreases top - rank(id),
{
    assert(dependencies(left).dom() =~= left.dom());
    assert(dependencies(right).dom() =~= right.dom());
    assert forall|time: u64| #[trigger] (left[id].read_capabilities)(time) == (
    right[id].read_capabilities)(time) by {
        let term = held_by(left, id, time);
        let other_term = held_by(right, id, time);
        assert forall|reader: u64| #[trigger] left.dom().contains(reader) implies term(reader)
            == other_term(reader) by {
            assert(left.contains_key(reader));
            assert(dependencies(left)[reader] == dependencies(right)[reader]);
            let list = left[reader].compute_dependencies;
            lemma_occurrences(list, id);
            if list.contains(id) {
                let i = choose|i: int| 0 <= i < list.len() && list[i] == id;
                assert(dependencies(left)[reader][i] == id);
                assert(rank(id) < rank(reader));
                lemma_same_capabilities(left, right, direct, rank, top, reader);
            } else {
                let x = occurrences(left[reader].read_frontier(), time);
                let y = occurrences(right[reader].read_frontier(), time);
                assert(0 * x == 0 && 0 * y == 0) by (nonlinear_arith);
            }
        }
        lemma_sum_same(left.dom(), term, other_term);
        assert(capabilities_at(left, id, time) + recorded(Map::<u64, Counts>::empty(), id)(time)
            == direct(id, time) + held_by_readers(left, id, time));
        assert(capabilities_at(right, id, time) + recorded(Map::<u64, Counts>::empty(), id)(time)
            == direct(id, time) + held_by_readers(right, id, time));
    }
    assert(left[id].read_capabilities =~= right[id].read_capabilities);
}

/// What is held other than by readers determines all read capabilities.
pub proof fn lemma_accounts_determine<L>(
    left: Map<u64, CollectionModel<L>>,
    right: Map<u64, CollectionModel<L>>,
    direct: spec_fn(u64, u64) -> int,
)
    requires
        left.dom().finite(),
        dependencies(left) == dependencies(right),
        crate::propagation::acyclic(dependencies(left)),
        accounted_when_settled(left, Map::empty(), direct),
        accounted_when_settled(right, Map::empty(), direct),
    ensures
        forall|id: u64| #[trigger]
            left.contains_key(id) ==> left[id].read_capabilities == right[id].read_capabilities,
{
    let rank = choose|rank: spec_fn(u64) -> nat| ranked(dependencies(left), rank);
    let term = |id: u64| rank(id) as int;
    lemma_sum_bounds(left.dom(), term);
    let top = sum_over(left.dom(), term) as nat;
    assert forall|other: u64| #[trigger] left.contains_key(other) implies rank(other) <= top by {
        assert(left.dom().contains(other));
        assert(term(other) == rank(other));
    }
    assert forall|id: u64| #[trigger] left.contains_key(id) implies left[id].read_capabilities
        == right[id].read_capabilities by {
        lemma_same_capabilities(left, right, direct, rank, top, id);
    }
}

} // verus!
