//! Signed changes to the counts of times, and the accumulations of such changes.
use std::collections::BTreeMap;
use timely::progress::frontier::MutableAntichain;
use timely::progress::{Antichain, ChangeBatch};
use vstd::prelude::*;

use crate::frontier::{antichain_elements, elements, Frontier};

verus! {

/// A count for each time; a time that nothing was recorded for counts zero.
pub type Counts = spec_fn(u64) -> int;

/// No time counts anything.
pub open spec fn no_counts() -> Counts {
    |time: u64| 0int
}

/// The sum of two counts, time by time.
pub open spec fn plus(left: Counts, right: Counts) -> Counts {
    |time: u64| left(time) + right(time)
}

/// The difference of two counts, time by time.
pub open spec fn minus(left: Counts, right: Counts) -> Counts {
    |time: u64| left(time) - right(time)
}

/// `count` at `time`, nothing elsewhere.
pub open spec fn count_at(time: u64, count: int) -> Counts {
    |other: u64|
        if other == time {
            count
        } else {
            0int
        }
}

/// Whether every time counts zero.
pub open spec fn is_zero(counts: Counts) -> bool {
    forall|time: u64| #[trigger] counts(time) == 0
}

/// How often `time` occurs in the frontier.
pub open spec fn occurrences(frontier: Frontier, time: u64) -> int
    decreases frontier.len(),
{
    if frontier.len() == 0 {
        0
    } else {
        occurrences(frontier.drop_last(), time) + if frontier.last() == time {
            1int
        } else {
            0int
        }
    }
}

/// One count for each element of the frontier.
pub open spec fn frontier_counts(frontier: Frontier) -> Counts {
    |time: u64| occurrences(frontier, time)
}

/// The counts that replace the frontier `from` by the frontier `to`.
pub open spec fn moved(from: Frontier, to: Frontier) -> Counts {
    minus(frontier_counts(to), frontier_counts(from))
}

/// What a list of changes sums up to at `time`.
pub open spec fn total_at(updates: Seq<(u64, i64)>, time: u64) -> int
    decreases updates.len(),
{
    if updates.len() == 0 {
        0
    } else {
        total_at(updates.drop_last(), time) + if updates.last().0 == time {
            updates.last().1 as int
        } else {
            0int
        }
    }
}

/// What a list of changes sums up to, time by time.
pub open spec fn totals(updates: Seq<(u64, i64)>) -> Counts {
    |time: u64| total_at(updates, time)
}

/// The magnitude of a change.
pub open spec fn magnitude(change: int) -> nat {
    if change < 0 {
        (-change) as nat
    } else {
        change as nat
    }
}

/// The magnitudes of a list of changes, added up.
pub open spec fn mass(updates: Seq<(u64, i64)>) -> nat
    decreases updates.len(),
{
    if updates.len() == 0 {
        0
    } else {
        mass(updates.drop_last()) + magnitude(updates.last().1 as int)
    }
}

/// Whether no change in the list is zero.
pub open spec fn no_zero(updates: Seq<(u64, i64)>) -> bool {
    forall|i: int| 0 <= i < updates.len() ==> (#[trigger] updates[i]).1 != 0
}

/// Whether the times of the list ascend, none occurring twice.
pub open spec fn ascending(updates: Seq<(u64, i64)>) -> bool {
    forall|i: int, j: int|
        0 <= i < j < updates.len() ==> (#[trigger] updates[i]).0 < (#[trigger] updates[j]).0
}

/// Whether `time` is the least time that counts more than zero.
pub open spec fn is_least(counts: Counts, time: u64) -> bool {
    &&& counts(time) > 0
    &&& forall|other: u64| other < time ==> #[trigger] counts(other) <= 0
}

/// The frontier of an accumulation: its least time with a positive count, if there is one.
pub open spec fn lower(counts: Counts) -> Frontier {
    if exists|time: u64| is_least(counts, time) {
        seq![choose|time: u64| is_least(counts, time)]
    } else {
        Seq::<u64>::empty()
    }
}

/// `timely::progress::ChangeBatch`.
#[verifier::external_type_specification]
#[verifier::external_body]
#[verifier::reject_recursive_types(T)]
pub struct ExChangeBatch<T>(timely::progress::ChangeBatch<T>);

/// A `timely::progress::frontier::MutableAntichain` of times, which `update_iter` alone changes.
#[verifier::external_body]
#[derive(Debug)]
pub struct Accumulation {
    antichain: MutableAntichain<u64>,
}

/// The list of changes that a batch holds: what `ChangeBatch::unstable_internal_updates` reveals.
pub uninterp spec fn batch_updates(batch: ChangeBatch<u64>) -> Seq<(u64, i64)>;

/// The list of changes that an accumulation holds.
pub uninterp spec fn held_updates(accumulation: Accumulation) -> Seq<(u64, i64)>;

/// What a batch of changes sums up to.
pub open spec fn batch_counts(batch: ChangeBatch<u64>) -> Counts {
    totals(batch_updates(batch))
}

/// What an accumulation sums up to.
pub open spec fn held_counts(accumulation: Accumulation) -> Counts {
    totals(held_updates(accumulation))
}

/// Calls `ChangeBatch::new`: the result holds no change.
#[verifier::external_body]
pub(crate) fn empty_batch() -> (result: ChangeBatch<u64>)
    ensures
        batch_updates(result) == Seq::<(u64, i64)>::empty(),
{
    ChangeBatch::new()
}

/// Calls `ChangeBatch::new_from`: the result holds the one change it is given.
#[verifier::external_body]
pub(crate) fn batch_of(time: u64, change: i64) -> (result: ChangeBatch<u64>)
    ensures
        batch_updates(result) == seq![(time, change)],
{
    ChangeBatch::new_from(time, change)
}

/// Calls `ChangeBatch::clone`: the copy holds the same changes.
#[verifier::external_body]
pub(crate) fn copy_batch(batch: &ChangeBatch<u64>) -> (result: ChangeBatch<u64>)
    ensures
        batch_updates(result) == batch_updates(*batch),
{
    batch.clone()
}

/// Calls `ChangeBatch::update`, which appends the change and may then consolidate the list:
/// the sums are those of the longer list, the magnitudes do not grow by more than the change's.
/// Consolidating adds changes of one time up in 64 bits, which the magnitudes bound.
#[verifier::external_body]
pub(crate) fn update_batch(batch: &mut ChangeBatch<u64>, time: u64, change: i64)
    requires
        mass(batch_updates(*old(batch))) + magnitude(change as int) <= i64::MAX,
    ensures
        batch_counts(*final(batch)) == totals(batch_updates(*old(batch)).push((time, change))),
        mass(batch_updates(*final(batch))) <= mass(batch_updates(*old(batch))) + magnitude(
            change as int,
        ),
        no_zero(batch_updates(*old(batch))) && change != 0 ==> no_zero(
            batch_updates(*final(batch)),
        ),
{
    batch.update(time, change)
}

/// Calls `ChangeBatch::extend`, which appends the changes and may then consolidate the list:
/// the sums are those of the longer list, the magnitudes do not grow by more than the changes'.
/// Consolidating adds changes of one time up in 64 bits, which the magnitudes bound.
#[verifier::external_body]
pub(crate) fn extend_batch(batch: &mut ChangeBatch<u64>, changes: Vec<(u64, i64)>)
    requires
        mass(batch_updates(*old(batch))) + mass(changes@) <= i64::MAX,
    ensures
        batch_counts(*final(batch)) == totals(batch_updates(*old(batch)) + changes@),
        mass(batch_updates(*final(batch))) <= mass(batch_updates(*old(batch))) + mass(changes@),
        no_zero(batch_updates(*old(batch))) && no_zero(changes@) ==> no_zero(
            batch_updates(*final(batch)),
        ),
{
    batch.extend(changes.into_iter())
}

/// Calls `ChangeBatch::drain`, which consolidates the list and hands it out, leaving the batch
/// empty: one change for each time, in the order of the times, with the sums of the list. A
/// change of zero can come out only where one was recorded.
#[verifier::external_body]
pub(crate) fn drain_batch(batch: &mut ChangeBatch<u64>) -> (result: Vec<(u64, i64)>)
    requires
        mass(batch_updates(*old(batch))) <= i64::MAX,
    ensures
        batch_updates(*final(batch)) == Seq::<(u64, i64)>::empty(),
        totals(result@) == batch_counts(*old(batch)),
        mass(result@) <= mass(batch_updates(*old(batch))),
        ascending(result@),
        no_zero(batch_updates(*old(batch))) ==> no_zero(result@),
{
    batch.drain().collect()
}

/// Calls `ChangeBatch::iter`, which consolidates the list, and copies out what it walks over:
/// one change for each time, in the order of the times, with the sums of the list.
#[verifier::external_body]
pub(crate) fn batch_changes(batch: &mut ChangeBatch<u64>) -> (result: Vec<(u64, i64)>)
    requires
        mass(batch_updates(*old(batch))) <= i64::MAX,
    ensures
        batch_updates(*final(batch)) == result@,
        totals(result@) == batch_counts(*old(batch)),
        mass(result@) <= mass(batch_updates(*old(batch))),
        ascending(result@),
        no_zero(batch_updates(*old(batch))) ==> no_zero(result@),
{
    batch.iter().cloned().collect()
}

/// Calls `ChangeBatch::is_empty`, which may consolidate the list first: whether the changes
/// cancel out at every time. A lone recorded change of zero would not be seen to cancel out, so
/// the list must hold none.
#[verifier::external_body]
pub(crate) fn batch_is_empty(batch: &mut ChangeBatch<u64>) -> (result: bool)
    requires
        no_zero(batch_updates(*old(batch))),
        mass(batch_updates(*old(batch))) <= i64::MAX,
    ensures
        result == is_zero(batch_counts(*old(batch))),
        batch_counts(*final(batch)) == batch_counts(*old(batch)),
        mass(batch_updates(*final(batch))) <= mass(batch_updates(*old(batch))),
        no_zero(batch_updates(*final(batch))),
{
    batch.is_empty()
}

/// Calls `MutableAntichain::new`: the accumulation holds no change.
#[verifier::external_body]
pub(crate) fn empty_accumulation() -> (result: Accumulation)
    ensures
        held_updates(result) == Seq::<(u64, i64)>::empty(),
{
    Accumulation { antichain: MutableAntichain::new() }
}

/// Calls `MutableAntichain::update_iter`, which takes the changes in and hands out how the
/// frontier moved: one change down for the element that left it, one up for the element that
/// entered it, in the order of the times, none if it stayed. Rebuilding the frontier adds
/// changes of one time up in 64 bits, which the magnitudes bound.
#[verifier::external_body]
pub(crate) fn update_accumulation(
    accumulation: &mut Accumulation,
    changes: Vec<(u64, i64)>,
) -> (result: Vec<(u64, i64)>)
    requires
        mass(held_updates(*old(accumulation))) + mass(changes@) <= i64::MAX,
    ensures
        held_counts(*final(accumulation)) == totals(
            held_updates(*old(accumulation)) + changes@,
        ),
        mass(held_updates(*final(accumulation))) <= mass(held_updates(*old(accumulation))) + mass(
            changes@,
        ),
        totals(result@) == moved(
            lower(held_counts(*old(accumulation))),
            lower(held_counts(*final(accumulation))),
        ),
        mass(result@) <= 2,
        ascending(result@),
        no_zero(result@),
{
    accumulation.antichain.update_iter(changes).collect()
}

/// Calls `MutableAntichain::frontier` and `AntichainRef::to_owned`: the least time with a
/// positive count, if there is one.
#[verifier::external_body]
pub(crate) fn accumulation_frontier(accumulation: &Accumulation) -> (result: Antichain<
    u64,
>)
    ensures
        antichain_elements(result) == lower(held_counts(*accumulation)),
{
    accumulation.antichain.frontier().to_owned()
}

/// Changes of one list after those of another add up.
pub proof fn lemma_totals_of_both(left: Seq<(u64, i64)>, right: Seq<(u64, i64)>)
    ensures
        totals(left + right) == plus(totals(left), totals(right)),
        mass(left + right) == mass(left) + mass(right),
    decreases right.len(),
{
    if right.len() == 0 {
        assert(left + right =~= left);
        assert(totals(left + right) =~= plus(totals(left), totals(right)));
    } else {
        lemma_totals_of_both(left, right.drop_last());
        assert((left + right).drop_last() =~= left + right.drop_last());
        let both = left + right;
        assert forall|time: u64| #[trigger]
            total_at(both, time) == total_at(left, time) + total_at(right, time) by {
            assert(totals(left + right.drop_last())(time) == plus(
                totals(left),
                totals(right.drop_last()),
            )(time));
        }
        assert(totals(left + right) =~= plus(totals(left), totals(right)));
    }
}

/// What an empty list and a list of one change sum up to.
pub proof fn lemma_totals_of_few(time: u64, change: i64)
    ensures
        totals(Seq::<(u64, i64)>::empty()) == no_counts(),
        mass(Seq::<(u64, i64)>::empty()) == 0,
        totals(seq![(time, change)]) == count_at(time, change as int),
        mass(seq![(time, change)]) == magnitude(change as int),
{
    reveal_with_fuel(total_at, 2);
    reveal_with_fuel(mass, 2);
    assert(totals(Seq::<(u64, i64)>::empty()) =~= no_counts());
    assert(seq![(time, change)].drop_last() =~= Seq::<(u64, i64)>::empty());
    assert(totals(seq![(time, change)]) =~= count_at(time, change as int));
}

/// A frontier counts no time less than zero times, and exactly its elements at least once.
pub proof fn lemma_occurrences(frontier: Frontier, time: u64)
    ensures
        occurrences(frontier, time) >= 0,
        occurrences(frontier, time) > 0 <==> frontier.contains(time),
    decreases frontier.len(),
{
    if frontier.len() > 0 {
        lemma_occurrences(frontier.drop_last(), time);
        if frontier.last() == time {
            assert(frontier[frontier.len() - 1] == time);
        }
        if frontier.drop_last().contains(time) {
            let i = choose|i: int|
                0 <= i < frontier.drop_last().len() && frontier.drop_last()[i] == time;
            assert(frontier[i] == time);
        }
        if frontier.contains(time) && frontier.last() != time {
            let i = choose|i: int| 0 <= i < frontier.len() && frontier[i] == time;
            assert(frontier.drop_last()[i] == time);
        }
    }
}

/// `change` for each of the times.
fn change_each(times: &Vec<u64>, change: i64) -> (result: Vec<(u64, i64)>)
    requires
        change == 1 || change == -1,
    ensures
        mass(result@) == times@.len(),
        no_zero(result@),
        forall|time: u64| #[trigger]
            total_at(result@, time) == change * occurrences(times@, time),
{
    let mut result: Vec<(u64, i64)> = Vec::new();
    let mut i: usize = 0;
    while i < times.len()
        invariant
            change == 1 || change == -1,
            i <= times.len(),
            mass(result@) == i,
            no_zero(result@),
            forall|time: u64| #[trigger]
                total_at(result@, time) == change * occurrences(times@.take(i as int), time),
        decreases times.len() - i,
    {
        let ghost before = result@;
        result.push((times[i], change));
        proof {
            assert(result@.drop_last() =~= before);
            assert(times@.take(i + 1).drop_last() =~= times@.take(i as int));
            assert forall|time: u64| #[trigger]
                total_at(result@, time) == change * occurrences(times@.take(i + 1), time) by {
                assert(total_at(before, time) == change * occurrences(times@.take(i as int), time));
            }
        }
        i = i + 1;
    }
    proof {
        assert(times@.take(i as int) =~= times@);
    }
    result
}

/// The changes that replace the frontier `from`, if there is one, by the frontier `to`.
pub(crate) fn move_changes(from: Option<&Antichain<u64>>, to: &Antichain<u64>) -> (result: Vec<
    (u64, i64),
>)
    ensures
        totals(result@) == moved(
            match from {
                Some(from) => antichain_elements(*from),
                None => Seq::<u64>::empty(),
            },
            antichain_elements(*to),
        ),
        no_zero(result@),
        mass(result@) == antichain_elements(*to).len() + match from {
            Some(from) => antichain_elements(*from).len(),
            None => 0,
        },
{
    let up = change_each(&elements(to), 1);
    let down = match from {
        Some(from) => change_each(&elements(from), -1),
        None => Vec::new(),
    };
    let result = join_changes(up, down);
    proof {
        let old_elements = match from {
            Some(from) => antichain_elements(*from),
            None => Seq::<u64>::empty(),
        };
        lemma_totals_of_both(up@, down@);
        assert forall|time: u64| #[trigger]
            total_at(result@, time) == occurrences(antichain_elements(*to), time) - occurrences(
                old_elements,
                time,
            ) by {
            assert(totals(up@ + down@)(time) == plus(totals(up@), totals(down@))(time));
            assert(total_at(up@, time) == occurrences(antichain_elements(*to), time));
            assert(total_at(down@, time) == -occurrences(old_elements, time));
        }
        assert(totals(result@) =~= moved(old_elements, antichain_elements(*to)));
    }
    result
}

/// One list of changes after the other.
fn join_changes(front: Vec<(u64, i64)>, back: Vec<(u64, i64)>) -> (result: Vec<(u64, i64)>)
    ensures
        result@ == front@ + back@,
{
    let mut result = front;
    let mut i: usize = 0;
    while i < back.len()
        invariant
            i <= back.len(),
            result@ == front@ + back@.take(i as int),
        decreases back.len() - i,
    {
        result.push(back[i]);
        i = i + 1;
    }
    proof {
        assert(back@.take(i as int) =~= back@);
    }
    result
}

/// A copy of a list of changes.
fn copy_changes(changes: &Vec<(u64, i64)>) -> (result: Vec<(u64, i64)>)
    ensures
        result@ == changes@,
{
    let mut result: Vec<(u64, i64)> = Vec::new();
    let mut i: usize = 0;
    while i < changes.len()
        invariant
            i <= changes.len(),
            result@ == changes@.take(i as int),
        decreases changes.len() - i,
    {
        result.push(changes[i]);
        i = i + 1;
    }
    result
}

/// What the batches of a map sum up to, batch by batch.
pub open spec fn batches_counts(batches: Map<u64, ChangeBatch<u64>>) -> Map<u64, Counts> {
    batches.map_values(|batch: ChangeBatch<u64>| batch_counts(batch))
}

/// What is recorded for `id`, nothing where there is no record.
pub open spec fn recorded(changes: Map<u64, Counts>, id: u64) -> Counts {
    if changes.contains_key(id) {
        changes[id]
    } else {
        no_counts()
    }
}

/// Records further changes for `id`.
pub open spec fn add_to(changes: Map<u64, Counts>, id: u64, more: Counts) -> Map<u64, Counts> {
    changes.insert(id, plus(recorded(changes, id), more))
}

/// Records the same changes for each of the identifiers, one after the other.
pub open spec fn add_to_all(changes: Map<u64, Counts>, ids: Seq<u64>, more: Counts) -> Map<
    u64,
    Counts,
>
    decreases ids.len(),
{
    if ids.len() == 0 {
        changes
    } else {
        add_to(add_to_all(changes, ids.drop_last(), more), ids.last(), more)
    }
}

/// The magnitudes of the changes that a map of batches holds for `id`.
pub open spec fn batch_mass(batches: Map<u64, ChangeBatch<u64>>, id: u64) -> nat {
    if batches.contains_key(id) {
        mass(batch_updates(batches[id]))
    } else {
        0
    }
}

/// Records changes for `id` in a map of batches.
pub(crate) fn record(
    batches: &mut BTreeMap<u64, ChangeBatch<u64>>,
    id: u64,
    changes: Vec<(u64, i64)>,
)
    requires
        batch_mass(old(batches)@, id) + mass(changes@) <= i64::MAX,
    ensures
        batches_counts(final(batches)@) == add_to(
            batches_counts(old(batches)@),
            id,
            totals(changes@),
        ),
        batch_mass(final(batches)@, id) <= batch_mass(old(batches)@, id) + mass(changes@),
        forall|other: u64|
            other != id ==> #[trigger] batch_mass(final(batches)@, other) == batch_mass(
                old(batches)@,
                other,
            ),
{
    let mut batch = match batches.remove(&id) {
        Some(batch) => batch,
        None => empty_batch(),
    };
    let ghost before = batch;
    extend_batch(&mut batch, changes);
    proof {
        lemma_totals_of_both(batch_updates(before), changes@);
        lemma_totals_of_few(0, 0);
    }
    batches.insert(id, batch);
    proof {
        assert(batches_counts(batches@) =~= add_to(
            batches_counts(old(batches)@),
            id,
            totals(changes@),
        ));
    }
}

/// Records the same changes for each of the identifiers in a map of batches.
pub(crate) fn record_all(
    batches: &mut BTreeMap<u64, ChangeBatch<u64>>,
    ids: &Vec<u64>,
    changes: &Vec<(u64, i64)>,
)
    requires
        forall|id: u64| #[trigger]
            batch_mass(old(batches)@, id) + ids@.len() * mass(changes@) <= i64::MAX,
    ensures
        batches_counts(final(batches)@) == add_to_all(
            batches_counts(old(batches)@),
            ids@,
            totals(changes@),
        ),
        forall|id: u64| #[trigger]
            batch_mass(final(batches)@, id) <= batch_mass(old(batches)@, id) + ids@.len() * mass(
                changes@,
            ),
{
    let mut i: usize = 0;
    proof {
        assert(ids@.take(0) =~= Seq::<u64>::empty());
    }
    while i < ids.len()
        invariant
            i <= ids.len(),
            forall|id: u64| #[trigger]
                batch_mass(old(batches)@, id) + ids@.len() * mass(changes@) <= i64::MAX,
            batches_counts(batches@) == add_to_all(
                batches_counts(old(batches)@),
                ids@.take(i as int),
                totals(changes@),
            ),
            forall|id: u64| #[trigger]
                batch_mass(batches@, id) <= batch_mass(old(batches)@, id) + i * mass(changes@),
        decreases ids.len() - i,
    {
        let ghost before = batches@;
        proof {
            let m = mass(changes@) as int;
            assert(i * m + m == (i + 1) * m) by (nonlinear_arith);
            assert((i + 1) * m <= ids@.len() * m) by (nonlinear_arith)
                requires
                    i + 1 <= ids@.len(),
                    0 <= m,
            ;
            assert(batch_mass(old(batches)@, ids@[i as int]) + ids@.len() * mass(changes@)
                <= i64::MAX);
        }
        record(batches, ids[i], copy_changes(changes));
        proof {
            let m = mass(changes@) as int;
            assert forall|id: u64| #[trigger]
                batch_mass(batches@, id) <= batch_mass(old(batches)@, id) + (i + 1) * m by {
                assert(batch_mass(before, id) <= batch_mass(old(batches)@, id) + i * m);
                assert(i * m + m == (i + 1) * m) by (nonlinear_arith);
                if id != ids@[i as int] {
                    assert(batch_mass(batches@, id) == batch_mass(before, id));
                }
            }
            assert(ids@.take(i + 1).drop_last() =~= ids@.take(i as int));
        }
        i = i + 1;
    }
    proof {
        assert(ids@.take(i as int) =~= ids@);
    }
}

} // verus!
