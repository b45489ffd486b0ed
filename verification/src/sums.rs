//! Sums over finite sets.
use vstd::prelude::*;

verus! {

/// The sum of `term` over a finite set.
pub open spec fn sum_over<A>(set: Set<A>, term: spec_fn(A) -> int) -> int
    decreases set.len(),
    when set.finite()
{
    if set.len() == 0 {
        0
    } else {
        term(set.choose()) + sum_over(set.remove(set.choose()), term)
    }
}

/// Any one member's term can be taken out of a sum.
pub proof fn lemma_sum_remove<A>(set: Set<A>, term: spec_fn(A) -> int, member: A)
    requires
        set.finite(),
        set.contains(member),
    ensures
        sum_over(set, term) == term(member) + sum_over(set.remove(member), term),
    decreases set.len(),
{
    let some = set.choose();
    if some != member {
        let rest = set.remove(some);
        lemma_sum_remove(rest, term, member);
        lemma_sum_remove(set.remove(member), term, some);
        assert(rest.remove(member) =~= set.remove(member).remove(some));
    }
}

/// A new member adds its term to a sum.
pub proof fn lemma_sum_insert<A>(set: Set<A>, term: spec_fn(A) -> int, member: A)
    requires
        set.finite(),
        !set.contains(member),
    ensures
        sum_over(set.insert(member), term) == term(member) + sum_over(set, term),
{
    lemma_sum_remove(set.insert(member), term, member);
    assert(set.insert(member).remove(member) =~= set);
}

/// A sum depends only on the terms of the members.
pub proof fn lemma_sum_same<A>(set: Set<A>, left: spec_fn(A) -> int, right: spec_fn(A) -> int)
    requires
        set.finite(),
        forall|member: A| #[trigger] set.contains(member) ==> left(member) == right(member),
    ensures
        sum_over(set, left) == sum_over(set, right),
    decreases set.len(),
{
    if set.len() > 0 {
        let some = set.choose();
        assert(set.contains(some));
        lemma_sum_same(set.remove(some), left, right);
    }
}

/// A sum of terms that are not negative is not negative, and at least any one term.
pub proof fn lemma_sum_bounds<A>(set: Set<A>, term: spec_fn(A) -> int)
    requires
        set.finite(),
        forall|member: A| #[trigger] set.contains(member) ==> term(member) >= 0,
    ensures
        sum_over(set, term) >= 0,
        forall|member: A| #[trigger] set.contains(member) ==> sum_over(set, term) >= term(member),
    decreases set.len(),
{
    if set.len() > 0 {
        let some = set.choose();
        assert(set.contains(some));
        lemma_sum_bounds(set.remove(some), term);
        assert forall|member: A| #[trigger] set.contains(member) implies sum_over(set, term)
            >= term(member) by {
            if member != some {
                assert(set.remove(some).contains(member));
            }
        }
    } else {
        assert forall|member: A| #[trigger] set.contains(member) implies sum_over(set, term)
            >= term(member) by {
            assert(set =~= Set::<A>::empty());
        }
    }
}

/// Terms that are zero can be left out of a sum.
pub proof fn lemma_sum_part<A>(whole: Set<A>, part: Set<A>, term: spec_fn(A) -> int)
    requires
        whole.finite(),
        part.subset_of(whole),
        forall|member: A| #[trigger]
            whole.contains(member) && !part.contains(member) ==> term(member) == 0,
    ensures
        sum_over(part, term) == sum_over(whole, term),
    decreases whole.len(),
{
    if exists|member: A| #[trigger] whole.contains(member) && !part.contains(member) {
        let member = choose|member: A| #[trigger] whole.contains(member) && !part.contains(member);
        lemma_sum_remove(whole, term, member);
        lemma_sum_part(whole.remove(member), part, term);
    } else {
        assert(part =~= whole);
    }
}

/// The sum over two sets that share no member is the sum of both sums.
pub proof fn lemma_sum_union<A>(left: Set<A>, right: Set<A>, term: spec_fn(A) -> int)
    requires
        left.finite(),
        right.finite(),
        left.disjoint(right),
    ensures
        sum_over(left.union(right), term) == sum_over(left, term) + sum_over(right, term),
    decreases right.len(),
{
    if right.len() == 0 {
        assert(right =~= Set::<A>::empty());
        assert(left.union(right) =~= left);
    } else {
        let some = right.choose();
        lemma_sum_union(left, right.remove(some), term);
        lemma_sum_remove(right, term, some);
        lemma_sum_insert(left.union(right.remove(some)), term, some);
        assert(left.union(right.remove(some)).insert(some) =~= left.union(right));
    }
}

/// The sum of equal terms is one of them as often as there are members.
pub proof fn lemma_sum_of_equals<A>(set: Set<A>, term: spec_fn(A) -> int, value: int)
    requires
        set.finite(),
        forall|member: A| #[trigger] set.contains(member) ==> term(member) == value,
    ensures
        sum_over(set, term) == set.len() * value,
    decreases set.len(),
{
    if set.len() == 0 {
        assert(0 * value == 0) by (nonlinear_arith);
    } else {
        let some = set.choose();
        assert(set.contains(some));
        lemma_sum_of_equals(set.remove(some), term, value);
        let n = set.remove(some).len() as int;
        assert((n + 1) * value == n * value + value) by (nonlinear_arith);
    }
}

/// The sum of sums of two terms is the sum of both sums.
pub proof fn lemma_sum_plus<A>(
    set: Set<A>,
    left: spec_fn(A) -> int,
    right: spec_fn(A) -> int,
    both: spec_fn(A) -> int,
)
    requires
        set.finite(),
        forall|member: A| #[trigger]
            set.contains(member) ==> both(member) == left(member) + right(member),
    ensures
        sum_over(set, both) == sum_over(set, left) + sum_over(set, right),
    decreases set.len(),
{
    if set.len() > 0 {
        let some = set.choose();
        assert(set.contains(some));
        lemma_sum_plus(set.remove(some), left, right, both);
    }
}

/// A sum changes by as much as the terms of some of the members do.
pub proof fn lemma_sum_shifted<A>(
    set: Set<A>,
    part: Set<A>,
    before: spec_fn(A) -> int,
    after: spec_fn(A) -> int,
    value: int,
)
    requires
        set.finite(),
        part.subset_of(set),
        forall|member: A| #[trigger]
            set.contains(member) ==> after(member) == before(member) + if part.contains(member) {
                value
            } else {
                0int
            },
    ensures
        sum_over(set, after) == sum_over(set, before) + part.len() * value,
{
    let shift = |member: A|
        if part.contains(member) {
            value
        } else {
            0int
        };
    lemma_sum_plus(set, before, shift, after);
    lemma_sum_part(set, part, shift);
    vstd::set_lib::lemma_set_subset_finite(set, part);
    lemma_sum_of_equals(part, shift, value);
}

} // verus!
