//! What the storage controller knows of the collections it manages.
use std::collections::BTreeMap;
use std::sync::Arc;
use timely::progress::Antichain;
use vstd::prelude::*;

use crate::frontier::{antichain_elements, Frontier};
use crate::ids::{CollectionMissing, GlobalId};

verus! {

/// What the storage controller knows of one collection.
#[derive(Debug)]
pub struct StorageCollectionState<P> {
    /// The times from which on the collection is readable.
    pub read_frontier: Antichain<u64>,
    /// How to reach the collection's data.
    pub collection_metadata: Arc<P>,
    /// The type of the collection's rows.
    pub typ: Arc<P>,
}

/// What the storage controller knows of one collection, with the elements of its frontier.
#[verifier::ext_equal]
pub struct StorageCollectionModel<P> {
    /// The times from which on the collection is readable.
    pub read_frontier: Frontier,
    /// How to reach the collection's data.
    pub collection_metadata: Arc<P>,
    /// The type of the collection's rows.
    pub typ: Arc<P>,
}

impl<P> View for StorageCollectionState<P> {
    type V = StorageCollectionModel<P>;

    open spec fn view(&self) -> StorageCollectionModel<P> {
        StorageCollectionModel {
            read_frontier: antichain_elements(self.read_frontier),
            collection_metadata: self.collection_metadata,
            typ: self.typ,
        }
    }
}

/// The collections of the storage controller, as they are while an instance is active.
#[derive(Debug)]
pub struct StorageController<P> {
    /// The collections, by identifier.
    pub collections: BTreeMap<GlobalId, StorageCollectionState<P>>,
}

impl<P> View for StorageController<P> {
    type V = Map<u64, StorageCollectionModel<P>>;

    open spec fn view(&self) -> Map<u64, StorageCollectionModel<P>> {
        self.collections@.map_values(|state: StorageCollectionState<P>| state@)
    }
}

/// What the storage controller knows now and at each of some later moments.
pub open spec fn storage_models<P>(
    now: StorageController<P>,
    later: Seq<&StorageController<P>>,
) -> Seq<Map<u64, StorageCollectionModel<P>>> {
    seq![now@] + later.map_values(|storage: &StorageController<P>| storage@)
}

impl<P> StorageController<P> {
    /// Acquires the state of the collection `id`.
    pub fn collection(&self, id: GlobalId) -> (result: Result<
        &StorageCollectionState<P>,
        CollectionMissing,
    >)
        ensures
            match result {
                Ok(state) => self@.contains_key(id) && state@ == self@[id],
                Err(missing) => !self@.contains_key(id) && missing == CollectionMissing(id),
            },
    {
        match self.collections.get(&id) {
            Some(state) => Ok(state),
            None => Err(CollectionMissing(id)),
        }
    }
}

} // verus!
