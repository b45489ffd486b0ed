use compute_controller::command::{
    ComputeReplicaLocation, ComputeSinkConnection, ComputeSinkDesc, DataflowDescription,
    LoggingConfig,
};
use compute_controller::instance::Instance;
use compute_controller::policy::LagBy;
use compute_controller::response::{
    ComputeControllerResponse, ComputeResponse, SubscribeBatch, SubscribeResponse,
};
use compute_controller::storage::StorageController;
use std::collections::BTreeMap;
use std::sync::Arc;
use timely::progress::Antichain;

type TestInstance = Instance<u32, LagBy>;
type Batch = (Vec<u64>, Vec<u64>, Result<Vec<(u64, u32, i64)>, String>);

fn storage() -> StorageController<u32> {
    StorageController { collections: BTreeMap::new() }
}

/// An instance with the replicas 1 and 2 and the subscription 20.
fn instance() -> TestInstance {
    let mut instance: TestInstance = Instance::new(1, BTreeMap::new(), 1000, 7);
    for id in [1, 2] {
        let logging = LoggingConfig {
            settings: Arc::new(0),
            index_logs: BTreeMap::new(),
            sink_logs: BTreeMap::new(),
        };
        instance
            .activate(&storage())
            .add_replica(id, ComputeReplicaLocation::Unmanaged(0), logging)
            .unwrap();
    }
    let sink = ComputeSinkDesc {
        from: 10,
        from_desc: 0,
        connection: ComputeSinkConnection::Subscribe(0),
        as_of: 0,
    };
    let dataflow = DataflowDescription {
        source_imports: BTreeMap::new(),
        index_imports: BTreeMap::new(),
        objects_to_build: vec![],
        index_exports: BTreeMap::new(),
        sink_exports: BTreeMap::from([(20, sink)]),
        as_of: Some(Antichain::from_elem(0)),
        until: Antichain::new(),
        debug_name: "subscribe".to_string(),
    };
    let storage = storage();
    instance.activate(&storage).create_dataflows(vec![dataflow], &vec![&storage]).unwrap();
    instance
}

fn handle(
    instance: &mut TestInstance,
    response: SubscribeResponse<u32>,
    replica: u64,
) -> Option<SubscribeResponse<u32>> {
    let response = ComputeResponse::SubscribeResponse(20, response);
    match instance.activate(&storage()).handle_response(response, replica) {
        Some(ComputeControllerResponse::SubscribeResponse(20, response)) => Some(response),
        Some(other) => panic!("unexpected response {:?}", other),
        None => None,
    }
}

fn batch(
    instance: &mut TestInstance,
    replica: u64,
    lower: u64,
    upper: Option<u64>,
    updates: Result<Vec<(u64, u32, i64)>, String>,
) -> Option<Batch> {
    let batch = SubscribeBatch {
        lower: Antichain::from_elem(lower),
        upper: match upper {
            Some(upper) => Antichain::from_elem(upper),
            None => Antichain::new(),
        },
        updates,
    };
    match handle(instance, SubscribeResponse::Batch(batch), replica) {
        Some(SubscribeResponse::Batch(batch)) => Some((
            batch.lower.elements().to_vec(),
            batch.upper.elements().to_vec(),
            batch.updates,
        )),
        Some(other) => panic!("unexpected response {:?}", other),
        None => None,
    }
}

#[test]
fn batches_follow_one_another() {
    let mut instance = instance();
    let first = batch(&mut instance, 1, 0, Some(4), Ok(vec![(1, 10, 1), (3, 11, -1)]));
    assert_eq!(first, Some((vec![0], vec![4], Ok(vec![(1, 10, 1), (3, 11, -1)]))));
    let second = batch(&mut instance, 1, 4, Some(6), Ok(vec![(5, 12, 1)]));
    assert_eq!(second, Some((vec![4], vec![6], Ok(vec![(5, 12, 1)]))));
}

#[test]
fn no_update_is_passed_on_twice() {
    let mut instance = instance();
    batch(&mut instance, 1, 0, Some(4), Ok(vec![(1, 10, 1)]));
    // The other replica starts from the beginning.
    assert_eq!(batch(&mut instance, 2, 0, Some(3), Ok(vec![(1, 10, 1)])), None);
    assert_eq!(batch(&mut instance, 2, 3, Some(4), Ok(vec![])), None);
    let next = batch(&mut instance, 2, 0, Some(7), Ok(vec![(1, 10, 1), (4, 12, 1), (6, 13, 1)]));
    assert_eq!(next, Some((vec![4], vec![7], Ok(vec![(4, 12, 1), (6, 13, 1)]))));
    assert_eq!(batch(&mut instance, 1, 4, Some(7), Ok(vec![(4, 12, 1)])), None);
}

#[test]
fn errors_are_passed_on() {
    let mut instance = instance();
    let failed = batch(&mut instance, 1, 0, Some(4), Err("too large".to_string()));
    assert_eq!(failed, Some((vec![0], vec![4], Err("too large".to_string()))));
}

#[test]
fn a_complete_subscription_is_silent() {
    let mut instance = instance();
    let last = batch(&mut instance, 1, 0, None, Ok(vec![(1, 10, 1)]));
    assert_eq!(last, Some((vec![0], vec![], Ok(vec![(1, 10, 1)]))));
    assert_eq!(batch(&mut instance, 2, 0, Some(3), Ok(vec![(1, 10, 1)])), None);
    assert_eq!(batch(&mut instance, 2, 3, None, Ok(vec![])), None);
    let dropped = SubscribeResponse::DroppedAt(Antichain::from_elem(3));
    assert!(handle(&mut instance, dropped, 2).is_none());
}

#[test]
fn a_dropped_subscription_is_reported_where_it_stands() {
    let mut instance = instance();
    batch(&mut instance, 1, 0, Some(4), Ok(vec![]));
    let dropped = SubscribeResponse::DroppedAt(Antichain::from_elem(2));
    match handle(&mut instance, dropped, 2) {
        Some(SubscribeResponse::DroppedAt(frontier)) => {
            assert_eq!(frontier, Antichain::from_elem(4))
        }
        other => panic!("unexpected response {:?}", other),
    }
    let dropped = SubscribeResponse::DroppedAt(Antichain::from_elem(4));
    assert!(handle(&mut instance, dropped, 1).is_none());
    assert_eq!(
        instance.collection(20).unwrap().replica_write_frontiers,
        BTreeMap::from([(1, Antichain::new()), (2, Antichain::new())])
    );
}

#[test]
fn batches_move_the_write_frontier() {
    let mut instance = instance();
    batch(&mut instance, 1, 0, Some(4), Ok(vec![]));
    batch(&mut instance, 2, 0, Some(3), Ok(vec![]));
    let state = instance.collection(20).unwrap();
    assert_eq!(state.write_frontier, Antichain::from_elem(4));
    assert_eq!(state.replica_write_frontiers[&2], Antichain::from_elem(3));
}
