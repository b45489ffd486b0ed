//! What is tracked of one collection.
use std::collections::BTreeMap;
use timely::progress::{Antichain, ChangeBatch};
use vstd::prelude::*;

use crate::changes::{
    accumulation_frontier, batch_counts, batch_updates, empty_accumulation, empty_batch,
    extend_batch, frontier_counts, held_counts, held_updates, lemma_totals_of_few, lower, mass,
    move_changes, moved, no_counts, no_zero, plus, totals, update_accumulation, Accumulation,
    Counts,
};
use crate::frontier::{
    antichain_elements, antichain_le, antichain_lt, antichain_of, copy_antichain, empty_antichain,
    frontier_le, frontier_lt, Frontier,
};
use crate::ids::{GlobalId, ReplicaId};
use crate::policy::{PolicyModel, ReadPolicy};

verus! {

/// The state of one collection.
#[derive(Debug)]
pub struct CollectionState<L> {
    /// Whether this is a log collection, which only some of the replicas maintain.
    pub log_collection: bool,
    /// The accumulated read capabilities: the implied capability, and those held by others.
    pub read_capabilities: Accumulation,
    /// The capability that the read policy implies.
    pub implied_capability: Antichain<u64>,
    /// The policy that downgrades the implied capability.
    pub read_policy: ReadPolicy<L>,
    /// The storage collections that this collection reads.
    pub storage_dependencies: Vec<GlobalId>,
    /// The compute collections that this collection reads.
    pub compute_dependencies: Vec<GlobalId>,
    /// The write frontier of the collection.
    pub write_frontier: Antichain<u64>,
    /// The write frontiers that the replicas have reported.
    pub replica_write_frontiers: BTreeMap<ReplicaId, Antichain<u64>>,
}

/// The state of one collection, with sums for the accumulation and elements for the frontiers.
#[verifier::ext_equal]
pub struct CollectionModel<L> {
    /// Whether this is a log collection, which only some of the replicas maintain.
    pub log_collection: bool,
    /// How many read capabilities are held at each time.
    pub read_capabilities: Counts,
    /// The capability that the read policy implies.
    pub implied_capability: Frontier,
    /// The policy that downgrades the implied capability.
    pub read_policy: PolicyModel<L>,
    /// The storage collections that this collection reads.
    pub storage_dependencies: Seq<u64>,
    /// The compute collections that this collection reads.
    pub compute_dependencies: Seq<u64>,
    /// The write frontier of the collection.
    pub write_frontier: Frontier,
    /// The write frontiers that the replicas have reported.
    pub replica_write_frontiers: Map<u64, Frontier>,
}

impl<L> CollectionModel<L> {
    /// A collection that is readable from `since` on and depends on the given collections.
    pub open spec fn created(
        since: Frontier,
        storage_dependencies: Seq<u64>,
        compute_dependencies: Seq<u64>,
    ) -> Self {
        CollectionModel {
            log_collection: false,
            read_capabilities: frontier_counts(since),
            implied_capability: since,
            read_policy: PolicyModel::ValidFrom(since),
            storage_dependencies,
            compute_dependencies,
            write_frontier: seq![0u64],
            replica_write_frontiers: Map::empty(),
        }
    }

    /// A log collection.
    pub open spec fn created_log() -> Self {
        CollectionModel {
            log_collection: true,
            ..Self::created(seq![0u64], Seq::empty(), Seq::empty())
        }
    }

    /// The times from which on the collection has to stay readable.
    pub open spec fn read_frontier(self) -> Frontier {
        lower(self.read_capabilities)
    }

    /// The collection after changes to its read capabilities.
    pub open spec fn with_changes(self, changes: Counts) -> Self {
        CollectionModel { read_capabilities: plus(self.read_capabilities, changes), ..self }
    }

    /// The collection after its implied capability moved to `capability`, unless that would be
    /// a step back.
    pub open spec fn downgraded(self, capability: Frontier) -> Self {
        if frontier_le(self.implied_capability, capability) {
            CollectionModel { implied_capability: capability, ..self }
        } else {
            self
        }
    }

    /// The changes to the read capabilities that go with such a move.
    pub open spec fn downgrade_changes(self, capability: Frontier) -> Counts {
        if frontier_le(self.implied_capability, capability) {
            moved(self.implied_capability, capability)
        } else {
            no_counts()
        }
    }

    /// The magnitudes of these changes, added up.
    pub open spec fn downgrade_cost(self, capability: Frontier) -> nat {
        if frontier_le(self.implied_capability, capability) {
            self.implied_capability.len() + capability.len()
        } else {
            0
        }
    }

    /// The frontier that `replica` has reported, empty if it has reported none.
    pub open spec fn reported(self, replica: u64) -> Frontier {
        if self.replica_write_frontiers.contains_key(replica) {
            self.replica_write_frontiers[replica]
        } else {
            Seq::empty()
        }
    }

    /// The collection after `replica` reported the write frontier `upper`.
    pub open spec fn with_upper(self, replica: u64, upper: Frontier) -> Self {
        CollectionModel {
            write_frontier: if frontier_lt(self.write_frontier, upper) {
                upper
            } else {
                self.write_frontier
            },
            replica_write_frontiers: self.replica_write_frontiers.insert(replica, upper),
            ..self
        }
    }

    /// The collection without what `replica` has reported.
    pub open spec fn without_replica(self, replica: u64) -> Self {
        CollectionModel {
            replica_write_frontiers: self.replica_write_frontiers.remove(replica),
            ..self
        }
    }

    /// Whether nobody holds a read capability and no replica can still write.
    pub open spec fn is_droppable(self) -> bool {
        &&& self.read_frontier().len() == 0
        &&& forall|replica: u64| #[trigger]
            self.replica_write_frontiers.contains_key(replica)
                ==> self.replica_write_frontiers[replica].len() == 0
    }
}

/// The elements of the frontiers of a map.
pub open spec fn frontiers_model(frontiers: Map<u64, Antichain<u64>>) -> Map<u64, Frontier> {
    frontiers.map_values(|frontier: Antichain<u64>| antichain_elements(frontier))
}

impl<L> View for CollectionState<L> {
    type V = CollectionModel<L>;

    open spec fn view(&self) -> CollectionModel<L> {
        CollectionModel {
            log_collection: self.log_collection,
            read_capabilities: held_counts(self.read_capabilities),
            implied_capability: antichain_elements(self.implied_capability),
            read_policy: self.read_policy@,
            storage_dependencies: self.storage_dependencies@,
            compute_dependencies: self.compute_dependencies@,
            write_frontier: antichain_elements(self.write_frontier),
            replica_write_frontiers: frontiers_model(self.replica_write_frontiers@),
        }
    }
}

impl<L> CollectionState<L> {
    /// The magnitudes of the changes that the read capabilities accumulate, added up.
    pub open spec fn capability_mass(self) -> nat {
        mass(held_updates(self.read_capabilities))
    }

    /// Creates the state of a collection that is readable from `since` on.
    pub fn new(
        since: Antichain<u64>,
        storage_dependencies: Vec<GlobalId>,
        compute_dependencies: Vec<GlobalId>,
    ) -> (result: Self)
        requires
            antichain_elements(since).len() <= i64::MAX,
        ensures
            result@ == CollectionModel::<L>::created(
                antichain_elements(since),
                storage_dependencies@,
                compute_dependencies@,
            ),
            result.capability_mass() <= antichain_elements(since).len(),
    {
        let mut read_capabilities = empty_accumulation();
        let changes = move_changes(None, &since);
        let ghost all = changes@;
        update_accumulation(&mut read_capabilities, changes);
        proof {
            assert(Seq::<(u64, i64)>::empty() + all =~= all);
            assert(moved(Seq::empty(), antichain_elements(since)) =~= frontier_counts(
                antichain_elements(since),
            ));
        }
        let result = CollectionState {
            log_collection: false,
            read_capabilities,
            implied_capability: copy_antichain(&since),
            read_policy: ReadPolicy::ValidFrom(since),
            storage_dependencies,
            compute_dependencies,
            write_frontier: antichain_of(0),
            replica_write_frontiers: BTreeMap::new(),
        };
        proof {
            assert(result@.replica_write_frontiers =~= Map::<u64, Frontier>::empty());
        }
        result
    }

    /// Creates the state of a log collection.
    pub fn new_log_collection() -> (result: Self)
        ensures
            result@ == CollectionModel::<L>::created_log(),
            result.capability_mass() <= 1,
    {
        let mut result = Self::new(antichain_of(0), Vec::new(), Vec::new());
        result.log_collection = true;
        result
    }

    /// Reports the times from which on the collection has to stay readable.
    pub fn read_frontier(&self) -> (result: Antichain<u64>)
        ensures
            antichain_elements(result) == self@.read_frontier(),
    {
        accumulation_frontier(&self.read_capabilities)
    }

    /// Applies changes to the read capabilities, and tells how the read frontier moved.
    pub(crate) fn change_capabilities(&mut self, changes: Vec<(u64, i64)>) -> (result: Vec<
        (u64, i64),
    >)
        requires
            old(self).capability_mass() + mass(changes@) <= i64::MAX,
        ensures
            final(self)@ == old(self)@.with_changes(totals(changes@)),
            final(self).capability_mass() <= old(self).capability_mass() + mass(changes@),
            totals(result@) == moved(old(self)@.read_frontier(), final(self)@.read_frontier()),
            mass(result@) <= 2,
            no_zero(result@),
    {
        let ghost before = held_updates(self.read_capabilities);
        let ghost all = changes@;
        let result = update_accumulation(&mut self.read_capabilities, changes);
        proof {
            crate::changes::lemma_totals_of_both(before, all);
        }
        result
    }

    /// Moves the implied capability to `capability`, unless that would be a step back, and tells
    /// which changes to the read capabilities go with that.
    pub(crate) fn downgrade(&mut self, capability: Antichain<u64>) -> (result: ChangeBatch<u64>)
        requires
            old(self)@.downgrade_cost(antichain_elements(capability)) <= i64::MAX,
        ensures
            final(self)@ == old(self)@.downgraded(antichain_elements(capability)),
            final(self).capability_mass() == old(self).capability_mass(),
            final(self).read_policy == old(self).read_policy,
            batch_counts(result) == old(self)@.downgrade_changes(antichain_elements(capability)),
            mass(batch_updates(result)) <= old(self)@.downgrade_cost(
                antichain_elements(capability),
            ),
            no_zero(batch_updates(result)),
    {
        let mut update = empty_batch();
        proof {
            lemma_totals_of_few(0, 0);
        }
        if antichain_le(&self.implied_capability, &capability) {
            let changes = move_changes(Some(&self.implied_capability), &capability);
            proof {
                assert(Seq::<(u64, i64)>::empty() + changes@ =~= changes@);
            }
            extend_batch(&mut update, changes);
            self.implied_capability = capability;
        }
        update
    }

    /// Takes the write frontier `upper` in that `replica` reports. Tells whether the write
    /// frontier of the collection advanced, and how the frontier of the replica moved.
    pub(crate) fn report(&mut self, replica: ReplicaId, upper: &Antichain<u64>) -> (result: (
        bool,
        Vec<(u64, i64)>,
    ))
        ensures
            final(self)@ == old(self)@.with_upper(replica, antichain_elements(*upper)),
            final(self).capability_mass() == old(self).capability_mass(),
            result.0 == frontier_lt(old(self)@.write_frontier, antichain_elements(*upper)),
            totals(result.1@) == moved(
                old(self)@.reported(replica),
                antichain_elements(*upper),
            ),
            mass(result.1@) == antichain_elements(*upper).len() + old(self)@.reported(
                replica,
            ).len(),
    {
        let advanced = antichain_lt(&self.write_frontier, upper);
        if advanced {
            self.write_frontier = copy_antichain(upper);
        }
        let old_upper = self.replica_write_frontiers.insert(replica, copy_antichain(upper));
        proof {
            assert(self@.replica_write_frontiers =~= old(self)@.replica_write_frontiers.insert(
                replica,
                antichain_elements(*upper),
            ));
        }
        let moves = move_changes(old_upper.as_ref(), upper);
        (advanced, moves)
    }

    /// Forgets what `replica` has reported. Tells how its frontier moved, if it had reported one.
    pub(crate) fn forget(&mut self, replica: ReplicaId) -> (result: Option<Vec<(u64, i64)>>)
        ensures
            final(self)@ == old(self)@.without_replica(replica),
            final(self).capability_mass() == old(self).capability_mass(),
            result is Some <==> old(self)@.replica_write_frontiers.contains_key(replica),
            result matches Some(moves) ==> totals(moves@) == moved(
                old(self)@.reported(replica),
                Seq::empty(),
            ) && mass(moves@) == old(self)@.reported(replica).len(),
    {
        let old_upper = self.replica_write_frontiers.remove(&replica);
        proof {
            assert(self@.replica_write_frontiers =~= old(self)@.replica_write_frontiers.remove(
                replica,
            ));
        }
        match old_upper {
            Some(frontier) => Some(move_changes(Some(&frontier), &empty_antichain())),
            None => None,
        }
    }

    /// Whether nobody holds a read capability and no replica can still write.
    pub(crate) fn is_droppable(&self) -> (result: bool)
        ensures
            result == self@.is_droppable(),
    {
        if !crate::frontier::is_empty(&self.read_frontier()) {
            return false;
        }
        let replicas = crate::ordered::sorted_keys(&self.replica_write_frontiers);
        proof {
            crate::ordered::lemma_sorted_ids(self.replica_write_frontiers@.dom());
        }
        let mut i: usize = 0;
        while i < replicas.len()
            invariant
                i <= replicas.len(),
                self@.read_frontier().len() == 0,
                replicas@ == crate::ordered::sorted_ids(self.replica_write_frontiers@.dom()),
                forall|replica: u64| #[trigger]
                    replicas@.contains(replica) <==> self.replica_write_frontiers@.contains_key(
                        replica,
                    ),
                forall|j: int|
                    0 <= j < i ==> self@.replica_write_frontiers[#[trigger] replicas@[j]].len()
                        == 0,
            decreases replicas.len() - i,
        {
            proof {
                assert(replicas@.contains(replicas@[i as int]));
            }
            match self.replica_write_frontiers.get(&replicas[i]) {
                Some(frontier) => {
                    if !crate::frontier::is_empty(frontier) {
                        proof {
                            assert(self@.replica_write_frontiers.contains_key(replicas@[i as int]));
                        }
                        return false;
                    }
                },
                None => {},
            }
            i = i + 1;
        }
        proof {
            assert forall|replica: u64| #[trigger]
                self@.replica_write_frontiers.contains_key(
                    replica,
                ) implies self@.replica_write_frontiers[replica].len() == 0 by {
                assert(replicas@.contains(replica));
                let j = choose|j: int| 0 <= j < replicas@.len() && replicas@[j] == replica;
                assert(self@.replica_write_frontiers[replicas@[j]].len() == 0);
            }
        }
        true
    }
}

} // verus!
