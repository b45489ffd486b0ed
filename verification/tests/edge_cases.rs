use compute_controller::action::Action;
use compute_controller::command::{
    ComputeReplicaLocation, ComputeSinkConnection, ComputeSinkDesc, DataflowDescription,
    LoggingConfig, PersistSinkConnection,
};
use compute_controller::instance::Instance;
use compute_controller::policy::{LagBy, ReadPolicy};
use compute_controller::response::ComputeResponse;
use compute_controller::storage::{StorageCollectionState, StorageController};
use std::collections::BTreeMap;
use std::sync::Arc;
use timely::progress::Antichain;

#[test]
fn the_last_write_frontier_of_a_sink_is_reported_though_the_sink_is_gone() {
    let state = StorageCollectionState {
        read_frontier: Antichain::from_elem(0),
        collection_metadata: Arc::new(0),
        typ: Arc::new(0),
    };
    let storage = StorageController { collections: BTreeMap::from([(12, state)]) };
    let mut instance: Instance<u32, LagBy> = Instance::new(1, BTreeMap::new(), 1000, 7);
    let logging = LoggingConfig {
        settings: Arc::new(0),
        index_logs: BTreeMap::new(),
        sink_logs: BTreeMap::new(),
    };
    instance
        .activate(&storage)
        .add_replica(1, ComputeReplicaLocation::Unmanaged(0), logging)
        .unwrap();
    let sink = ComputeSinkDesc {
        from: 10,
        from_desc: 0,
        connection: ComputeSinkConnection::Persist(PersistSinkConnection {
            value_desc: 0,
            storage_metadata: (),
        }),
        as_of: 0,
    };
    let dataflow = DataflowDescription {
        source_imports: BTreeMap::new(),
        index_imports: BTreeMap::new(),
        objects_to_build: vec![],
        index_exports: BTreeMap::new(),
        sink_exports: BTreeMap::from([(12, sink)]),
        as_of: Some(Antichain::from_elem(3)),
        until: Antichain::new(),
        debug_name: "sink".to_string(),
    };
    instance.activate(&storage).create_dataflows(vec![dataflow], &vec![&storage]).unwrap();
    instance
        .activate(&storage)
        .set_read_policy(vec![(12, ReadPolicy::LagWriteFrontier(LagBy { lag: 1 }))])
        .unwrap();
    instance.take_actions();
    let done = ComputeResponse::FrontierUppers(vec![(12, Antichain::new())]);
    assert!(instance.activate(&storage).handle_response(done, 1).is_none());
    assert!(instance.collection(12).is_err());
    let reported: Vec<_> = instance
        .take_actions()
        .into_iter()
        .filter_map(|action| match action {
            Action::UpdateStorageWriteFrontiers(uppers) => Some(uppers),
            _ => None,
        })
        .collect();
    assert_eq!(reported, vec![vec![(12, Antichain::new())]]);
}

#[test]
fn starts_are_counted() {
    let storage: StorageController<u32> = StorageController { collections: BTreeMap::new() };
    let mut instance: Instance<u32, LagBy> = Instance::new(1, BTreeMap::new(), 1000, 7);
    assert_eq!(instance.starts(1), 0);
    for starts in 1..=3 {
        let logging = LoggingConfig {
            settings: Arc::new(0),
            index_logs: BTreeMap::new(),
            sink_logs: BTreeMap::new(),
        };
        instance
            .activate(&storage)
            .add_replica(1, ComputeReplicaLocation::Unmanaged(0), logging)
            .unwrap();
        assert_eq!(instance.starts(1), starts);
        instance.activate(&storage).remove_replica(1).unwrap();
        assert_eq!(instance.starts(1), starts);
    }
}
