//! Identifiers in ascending order.
use std::collections::{BTreeMap, BTreeSet};
use vstd::prelude::*;

verus! {

/// Names that are ordered as numbers are.
pub trait Key: Sized {
    /// The number that stands for the name.
    spec fn number(self) -> int;

    /// Different names stand for different numbers.
    proof fn lemma_distinct(left: Self, right: Self)
        ensures
            left.number() == right.number() ==> left == right,
    ;
}

impl Key for u64 {
    open spec fn number(self) -> int {
        self as int
    }

    proof fn lemma_distinct(left: Self, right: Self) {
    }
}

impl Key for u128 {
    open spec fn number(self) -> int {
        self as int
    }

    proof fn lemma_distinct(left: Self, right: Self) {
    }
}

/// Whether `id` is in the set and none above it is.
pub open spec fn is_greatest<K: Key>(ids: Set<K>, id: K) -> bool {
    &&& ids.contains(id)
    &&& forall|other: K| #[trigger] ids.contains(other) ==> other.number() <= id.number()
}

/// The greatest identifier of a set that is finite and not empty.
pub open spec fn greatest<K: Key>(ids: Set<K>) -> K {
    choose|id: K| is_greatest(ids, id)
}

/// The identifiers of a finite set, ascending.
pub open spec fn sorted_ids<K: Key>(ids: Set<K>) -> Seq<K>
    decreases ids.len(),
    when ids.finite()
{
    if ids.len() == 0 {
        Seq::<K>::empty()
    } else {
        proof {
            lemma_greatest(ids);
        }
        sorted_ids(ids.remove(greatest(ids))).push(greatest(ids))
    }
}

/// Whether a list of identifiers ascends, none occurring twice.
pub open spec fn increasing<K: Key>(ids: Seq<K>) -> bool {
    forall|i: int, j: int|
        0 <= i < j < ids.len() ==> (#[trigger] ids[i]).number() < (#[trigger] ids[j]).number()
}

/// A finite set that is not empty has a greatest identifier.
pub proof fn lemma_greatest<K: Key>(ids: Set<K>)
    requires
        ids.finite(),
        ids.len() > 0,
    ensures
        is_greatest(ids, greatest(ids)),
    decreases ids.len(),
{
    let some = ids.choose();
    let rest = ids.remove(some);
    if rest.len() == 0 {
        assert(is_greatest(ids, some)) by {
            assert forall|other: K| #[trigger] ids.contains(other) implies other.number()
                <= some.number() by {
                if other != some {
                    assert(rest.contains(other));
                }
            }
        }
    } else {
        lemma_greatest(rest);
        let below = greatest(rest);
        let id = if below.number() < some.number() {
            some
        } else {
            below
        };
        assert(is_greatest(ids, id)) by {
            assert forall|other: K| #[trigger] ids.contains(other) implies other.number()
                <= id.number() by {
                if other != some {
                    assert(rest.contains(other));
                }
            }
        }
    }
}

/// `sorted_ids` lists exactly the set, ascending.
pub proof fn lemma_sorted_ids<K: Key>(ids: Set<K>)
    requires
        ids.finite(),
    ensures
        increasing(sorted_ids(ids)),
        sorted_ids(ids).len() == ids.len(),
        forall|id: K| #[trigger] sorted_ids(ids).contains(id) <==> ids.contains(id),
    decreases ids.len(),
{
    let list = sorted_ids(ids);
    if ids.len() > 0 {
        lemma_greatest(ids);
        let last = greatest(ids);
        let rest = ids.remove(last);
        lemma_sorted_ids(rest);
        let front = sorted_ids(rest);
        assert forall|i: int| 0 <= i < front.len() implies (#[trigger] front[i]).number()
            < last.number() by {
            assert(front.contains(front[i]));
            K::lemma_distinct(front[i], last);
        }
        assert forall|id: K| #[trigger] list.contains(id) <==> ids.contains(id) by {
            if ids.contains(id) {
                if id == last {
                    assert(list[list.len() - 1] == id);
                } else {
                    assert(front.contains(id));
                    let i = choose|i: int| 0 <= i < front.len() && front[i] == id;
                    assert(list[i] == id);
                }
            }
            if list.contains(id) {
                let i = choose|i: int| 0 <= i < list.len() && list[i] == id;
                if i < front.len() {
                    assert(front.contains(front[i]));
                }
            }
        }
    } else {
        assert(ids =~= Set::<K>::empty());
    }
}

/// An ascending list of exactly the set is `sorted_ids`.
pub proof fn lemma_sorted_ids_unique<K: Key>(list: Seq<K>, ids: Set<K>)
    requires
        ids.finite(),
        increasing(list),
        list.to_set() == ids,
    ensures
        list == sorted_ids(ids),
    decreases list.len(),
{
    if list.len() == 0 {
        assert(ids =~= Set::<K>::empty()) by {
            assert forall|id: K| !ids.contains(id) by {
                if ids.contains(id) {
                    assert(list.contains(id));
                }
            }
        }
    } else {
        let last = list.last();
        let front = list.drop_last();
        assert(list.contains(last));
        assert(is_greatest(ids, last)) by {
            assert forall|other: K| #[trigger] ids.contains(other) implies other.number()
                <= last.number() by {
                assert(list.contains(other));
                let i = choose|i: int| 0 <= i < list.len() && list[i] == other;
                assert(i == list.len() - 1 || list[i].number() < list[list.len() - 1].number());
            }
        }
        assert(ids.len() > 0) by {
            assert(ids.contains(last));
        }
        lemma_greatest(ids);
        assert(greatest(ids) == last) by {
            K::lemma_distinct(greatest(ids), last);
        }
        let rest = ids.remove(last);
        assert(front.to_set() =~= rest) by {
            assert forall|id: K| front.to_set().contains(id) <==> rest.contains(id) by {
                if front.contains(id) {
                    let i = choose|i: int| 0 <= i < front.len() && front[i] == id;
                    assert(list[i] == id);
                    assert(list[i].number() < list[list.len() - 1].number());
                    assert(list.contains(id));
                }
                if rest.contains(id) {
                    assert(list.contains(id));
                    let i = choose|i: int| 0 <= i < list.len() && list[i] == id;
                    assert(i != list.len() - 1);
                    assert(front[i] == id);
                }
            }
        }
        assert(increasing(front));
        lemma_sorted_ids_unique(front, rest);
        assert(list =~= front.push(last));
    }
}

/// What a walk over numbers of 64 bits yields ascends.
proof fn lemma_walk_increases(walk: Seq<&u64>)
    requires
        vstd::std_specs::btree::increasing_seq(walk),
    ensures
        increasing(walk.unref()),
{
    broadcast use {
        vstd::std_specs::btree::group_btree_axioms,
        vstd::laws_cmp::group_laws_cmp,
    };

    assert forall|i: int, j: int| 0 <= i < j < walk.len() implies #[trigger] walk.unref()[i]
        < #[trigger] walk.unref()[j] by {
        let left = walk[i];
        let right = walk[j];
        assert(vstd::std_specs::cmp::OrdSpec::cmp_spec(&walk[i], &walk[j]) is Less);
    }
}

/// The keys of a map, ascending.
pub(crate) fn sorted_keys<V>(map: &BTreeMap<u64, V>) -> (result: Vec<u64>)
    ensures
        result@ == sorted_ids(map@.dom()),
{
    broadcast use {
        vstd::std_specs::btree::group_btree_axioms,
        vstd::laws_cmp::group_laws_cmp,
    };

    let mut result: Vec<u64> = Vec::new();
    let walk = map.keys();
    let ghost all = vstd::std_specs::iter::IteratorSpec::remaining(&walk);
    proof {
        lemma_walk_increases(all);
    }
    for key in keys: walk
        invariant
            keys.seq() == all,
            result@ == all.unref().take(keys.index()),
    {
        result.push(*key);
    }
    proof {
        assert(result@ =~= all.unref());
        lemma_sorted_ids_unique(result@, map@.dom());
    }
    result
}

/// The members of a set, ascending.
pub(crate) fn sorted_set(set: &BTreeSet<u64>) -> (result: Vec<u64>)
    ensures
        set@.finite(),
        result@ == sorted_ids(set@),
{
    broadcast use {
        vstd::std_specs::btree::group_btree_axioms,
        vstd::laws_cmp::group_laws_cmp,
    };

    let mut result: Vec<u64> = Vec::new();
    let walk = set.iter();
    let ghost all = vstd::std_specs::iter::IteratorSpec::remaining(&walk);
    proof {
        lemma_walk_increases(all);
    }
    for member in members: walk
        invariant
            members.seq() == all,
            result@ == all.unref().take(members.index()),
    {
        result.push(*member);
    }
    proof {
        assert(result@ =~= all.unref());
        lemma_sorted_ids_unique(result@, set@);
    }
    result
}

/// What a walk over numbers of 128 bits yields ascends.
proof fn lemma_uuid_walk_increases(walk: Seq<&u128>)
    requires
        vstd::std_specs::btree::increasing_seq(walk),
    ensures
        increasing(walk.unref()),
{
    broadcast use {
        vstd::std_specs::btree::group_btree_axioms,
        vstd::laws_cmp::group_laws_cmp,
    };

    assert forall|i: int, j: int| 0 <= i < j < walk.len() implies #[trigger] walk.unref()[i]
        < #[trigger] walk.unref()[j] by {
        let left = walk[i];
        let right = walk[j];
        assert(vstd::std_specs::cmp::OrdSpec::cmp_spec(&walk[i], &walk[j]) is Less);
    }
}

/// The keys of a map, ascending.
pub(crate) fn sorted_uuid_keys<V>(map: &BTreeMap<u128, V>) -> (result: Vec<u128>)
    ensures
        result@ == sorted_ids(map@.dom()),
{
    broadcast use {
        vstd::std_specs::btree::group_btree_axioms,
        vstd::laws_cmp::group_laws_cmp,
    };

    let mut result: Vec<u128> = Vec::new();
    let walk = map.keys();
    let ghost all = vstd::std_specs::iter::IteratorSpec::remaining(&walk);
    proof {
        lemma_uuid_walk_increases(all);
    }
    for key in keys: walk
        invariant
            keys.seq() == all,
            result@ == all.unref().take(keys.index()),
    {
        result.push(*key);
    }
    proof {
        assert(result@ =~= all.unref());
        lemma_sorted_ids_unique(result@, map@.dom());
    }
    result
}

/// The members of a set, ascending.
pub(crate) fn sorted_uuid_set(set: &BTreeSet<u128>) -> (result: Vec<u128>)
    ensures
        set@.finite(),
        result@ == sorted_ids(set@),
{
    broadcast use {
        vstd::std_specs::btree::group_btree_axioms,
        vstd::laws_cmp::group_laws_cmp,
    };

    let mut result: Vec<u128> = Vec::new();
    let walk = set.iter();
    let ghost all = vstd::std_specs::iter::IteratorSpec::remaining(&walk);
    proof {
        lemma_uuid_walk_increases(all);
    }
    for member in members: walk
        invariant
            members.seq() == all,
            result@ == all.unref().take(members.index()),
    {
        result.push(*member);
    }
    proof {
        assert(result@ =~= all.unref());
        lemma_sorted_ids_unique(result@, set@);
    }
    result
}

/// The members of a list with one more at the end.
pub proof fn lemma_push_to_set<A>(list: Seq<A>, last: A)
    ensures
        list.push(last).to_set() == list.to_set().insert(last),
{
    assert forall|member: A| list.push(last).to_set().contains(member) <==> list.to_set().insert(
        last,
    ).contains(member) by {
        if list.contains(member) {
            let i = choose|i: int| 0 <= i < list.len() && list[i] == member;
            assert(list.push(last)[i] == member);
        }
        if member == last {
            assert(list.push(last)[list.len() as int] == member);
        }
        if list.push(last).contains(member) && member != last {
            let i = choose|i: int|
                0 <= i < list.push(last).len() && list.push(last)[i] == member;
            assert(list[i] == member);
        }
    }
    assert(list.push(last).to_set() =~= list.to_set().insert(last));
}

/// What is picked out of a list is in the list and was picked.
pub proof fn lemma_picked<A>(list: Seq<A>, pick: spec_fn(A) -> bool)
    ensures
        forall|i: int|
            0 <= i < list.filter(pick).len() ==> pick(#[trigger] list.filter(pick)[i])
                && list.contains(list.filter(pick)[i]),
    decreases list.len(),
{
    reveal(Seq::filter);
    if list.len() > 0 {
        let front = list.drop_last();
        lemma_picked(front, pick);
        let picked = list.filter(pick);
        assert forall|i: int| 0 <= i < picked.len() implies pick(#[trigger] picked[i])
            && list.contains(picked[i]) by {
            if i < front.filter(pick).len() {
                assert(front.contains(front.filter(pick)[i]));
                let j = choose|j: int| 0 <= j < front.len() && front[j] == picked[i];
                assert(list[j] == picked[i]);
            } else {
                assert(list[list.len() - 1] == picked[i]);
            }
        }
    }
}

/// The part of an increasing list that is picked out is increasing.
pub proof fn lemma_picked_increasing(list: Seq<u64>, pick: spec_fn(u64) -> bool)
    requires
        increasing(list),
    ensures
        increasing(list.filter(pick)),
        forall|i: int|
            0 <= i < list.filter(pick).len() ==> list.contains(#[trigger] list.filter(pick)[i]),
    decreases list.len(),
{
    reveal(Seq::filter);
    if list.len() > 0 {
        let front = list.drop_last();
        lemma_picked_increasing(front, pick);
        let picked = list.filter(pick);
        assert forall|i: int| 0 <= i < picked.len() implies list.contains(#[trigger] picked[i]) by {
            if i < front.filter(pick).len() {
                assert(front.contains(front.filter(pick)[i]));
                let j = choose|j: int| 0 <= j < front.len() && front[j] == picked[i];
                assert(list[j] == picked[i]);
            } else {
                assert(list[list.len() - 1] == picked[i]);
            }
        }
        assert forall|i: int, j: int| 0 <= i < j < picked.len() implies #[trigger] picked[i]
            < #[trigger] picked[j] by {
            assert(front.contains(front.filter(pick)[i]));
            let k = choose|k: int| 0 <= k < front.len() && front[k] == picked[i];
            assert(list[k] < list[list.len() - 1]);
        }
    }
}

} // verus!
