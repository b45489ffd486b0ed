//! Frontiers: the antichains of times that bound what may still be read or written.
use timely::progress::Antichain;
use timely::PartialOrder;
use vstd::prelude::*;

verus! {

/// The elements of an antichain, in the order in which the antichain holds them.
pub type Frontier = Seq<u64>;

/// Whether some element of the frontier is at or before `time`.
pub open spec fn reaches(frontier: Frontier, time: u64) -> bool {
    exists|i: int| 0 <= i < frontier.len() && #[trigger] frontier[i] <= time
}

/// Whether every element of `upper` is at or after some element of `lower`.
pub open spec fn frontier_le(lower: Frontier, upper: Frontier) -> bool {
    forall|i: int| 0 <= i < upper.len() ==> reaches(lower, #[trigger] upper[i])
}

/// Whether the two frontiers have the same elements, in whatever order.
pub open spec fn same_elements(left: Frontier, right: Frontier) -> bool {
    &&& left.len() == right.len()
    &&& forall|i: int| 0 <= i < left.len() ==> right.contains(#[trigger] left[i])
}

/// Whether `lower` is before `upper`: at or before it, and not the same.
pub open spec fn frontier_lt(lower: Frontier, upper: Frontier) -> bool {
    frontier_le(lower, upper) && !same_elements(lower, upper)
}

/// Whether no element of the frontier is at or before another one.
pub open spec fn is_antichain(frontier: Frontier) -> bool {
    forall|i: int, j: int|
        0 <= i < frontier.len() && 0 <= j < frontier.len() && i != j ==> !(#[trigger] frontier[i]
            <= #[trigger] frontier[j])
}

/// What is at or before a frontier reaches what the frontier reaches.
pub proof fn lemma_reaches_through(lower: Frontier, upper: Frontier, time: u64)
    requires
        frontier_le(lower, upper),
        reaches(upper, time),
    ensures
        reaches(lower, time),
{
    let i = choose|i: int| 0 <= i < upper.len() && #[trigger] upper[i] <= time;
    assert(reaches(lower, upper[i]));
    let j = choose|j: int| 0 <= j < lower.len() && #[trigger] lower[j] <= upper[i];
    assert(lower[j] <= time);
}

/// A frontier is at or before itself.
pub proof fn lemma_le_reflexive(frontier: Frontier)
    ensures
        frontier_le(frontier, frontier),
{
    assert forall|i: int| 0 <= i < frontier.len() implies reaches(
        frontier,
        #[trigger] frontier[i],
    ) by {}
}

/// A frontier at or before a second one is at or before what the second is at or before.
pub proof fn lemma_le_transitive(first: Frontier, second: Frontier, third: Frontier)
    requires
        frontier_le(first, second),
        frontier_le(second, third),
    ensures
        frontier_le(first, third),
{
    assert forall|i: int| 0 <= i < third.len() implies reaches(first, #[trigger] third[i]) by {
        assert(reaches(second, third[i]));
        lemma_reaches_through(first, second, third[i]);
    }
}

/// `timely::progress::Antichain`.
#[verifier::external_type_specification]
#[verifier::external_body]
#[verifier::reject_recursive_types(T)]
pub struct ExAntichain<T>(timely::progress::Antichain<T>);

/// What an antichain of times holds: the slice that `Antichain::elements` reveals.
pub uninterp spec fn antichain_elements(antichain: Antichain<u64>) -> Seq<u64>;

/// Calls `Antichain::new`: the result holds nothing.
#[verifier::external_body]
pub(crate) fn empty_antichain() -> (result: Antichain<u64>)
    ensures
        antichain_elements(result) == Seq::<u64>::empty(),
{
    Antichain::new()
}

/// Calls `Antichain::from_elem`: the result holds the one time it is given.
#[verifier::external_body]
pub(crate) fn antichain_of(time: u64) -> (result: Antichain<u64>)
    ensures
        antichain_elements(result) == seq![time],
{
    Antichain::from_elem(time)
}

/// Calls `Antichain::clone`: the copy holds the same elements in the same order.
#[verifier::external_body]
pub(crate) fn copy_antichain(antichain: &Antichain<u64>) -> (result: Antichain<u64>)
    ensures
        antichain_elements(result) == antichain_elements(*antichain),
{
    antichain.clone()
}

/// Calls `Antichain::elements` and hands the slice out as a vector.
#[verifier::external_body]
pub(crate) fn elements(antichain: &Antichain<u64>) -> (result: Vec<u64>)
    ensures
        result@ == antichain_elements(*antichain),
{
    antichain.elements().to_vec()
}

/// Calls `Antichain::less_equal` with a time: whether an element is at or before it.
#[verifier::external_body]
pub(crate) fn antichain_reaches(antichain: &Antichain<u64>, time: u64) -> (result: bool)
    ensures
        result == reaches(antichain_elements(*antichain), time),
{
    antichain.less_equal(&time)
}

/// Calls `PartialOrder::less_equal` of two antichains: whether each element of the second is
/// at or after some element of the first.
#[verifier::external_body]
pub(crate) fn antichain_le(lower: &Antichain<u64>, upper: &Antichain<u64>) -> (result: bool)
    ensures
        result == frontier_le(antichain_elements(*lower), antichain_elements(*upper)),
{
    PartialOrder::less_equal(lower, upper)
}

/// Calls `PartialOrder::less_than` of two antichains: `less_equal`, and `==` does not hold,
/// which compares the antichains as sets of elements.
#[verifier::external_body]
pub(crate) fn antichain_lt(lower: &Antichain<u64>, upper: &Antichain<u64>) -> (result: bool)
    ensures
        result == frontier_lt(antichain_elements(*lower), antichain_elements(*upper)),
{
    PartialOrder::less_than(lower, upper)
}

/// Whether the antichain holds nothing.
pub(crate) fn is_empty(antichain: &Antichain<u64>) -> (result: bool)
    ensures
        result == (antichain_elements(*antichain).len() == 0),
{
    elements(antichain).len() == 0
}

} // verus!
