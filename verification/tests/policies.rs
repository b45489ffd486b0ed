use compute_controller::action::Action;
use compute_controller::command::{
    ComputeReplicaLocation, ComputeSinkDesc, DataflowDescription, LoggingConfig,
};
use compute_controller::ids::CollectionMissing;
use compute_controller::instance::Instance;
use compute_controller::policy::{FrontierLogic, LagBy, ReadPolicy};
use compute_controller::response::ComputeResponse;
use compute_controller::storage::StorageController;
use std::collections::BTreeMap;
use std::sync::Arc;
use timely::progress::Antichain;

type TestInstance = Instance<u32, LagBy>;

fn storage() -> StorageController<u32> {
    StorageController { collections: BTreeMap::new() }
}

/// An instance with the replica 1 and the given indexes, readable from 5 on.
fn instance(ids: &[u64]) -> TestInstance {
    let mut instance: TestInstance = Instance::new(1, BTreeMap::new(), 1000, 7);
    let logging = LoggingConfig {
        settings: Arc::new(0),
        index_logs: BTreeMap::new(),
        sink_logs: BTreeMap::new(),
    };
    instance
        .activate(&storage())
        .add_replica(1, ComputeReplicaLocation::Unmanaged(0), logging)
        .unwrap();
    for id in ids {
        let sink_exports: BTreeMap<u64, ComputeSinkDesc<u32, ()>> = BTreeMap::new();
        let dataflow = DataflowDescription {
            source_imports: BTreeMap::new(),
            index_imports: BTreeMap::new(),
            objects_to_build: vec![],
            index_exports: BTreeMap::from([(*id, 0)]),
            sink_exports,
            as_of: Some(Antichain::from_elem(5)),
            until: Antichain::new(),
            debug_name: "index".to_string(),
        };
        let storage = storage();
        instance.activate(&storage).create_dataflows(vec![dataflow], &vec![&storage]).unwrap();
    }
    instance.take_actions();
    instance
}

fn valid_from(time: u64) -> ReadPolicy<LagBy> {
    ReadPolicy::ValidFrom(Antichain::from_elem(time))
}

fn report(instance: &mut TestInstance, id: u64, upper: u64) {
    let response = ComputeResponse::FrontierUppers(vec![(id, Antichain::from_elem(upper))]);
    assert!(instance.activate(&storage()).handle_response(response, 1).is_none());
}

fn since(instance: &TestInstance, id: u64) -> Antichain<u64> {
    instance.collection(id).unwrap().read_frontier()
}

#[test]
fn lagging_stays_behind_the_write_frontier() {
    let logic = LagBy { lag: 3 };
    assert_eq!(logic.frontier(&Antichain::from_elem(10)), Antichain::from_elem(7));
    assert_eq!(logic.frontier(&Antichain::from_elem(2)), Antichain::from_elem(0));
    assert_eq!(logic.frontier(&Antichain::new()), Antichain::new());
    let policy = ReadPolicy::LagWriteFrontier(logic);
    assert_eq!(policy.frontier(&Antichain::from_elem(10)), Antichain::from_elem(7));
    assert_eq!(valid_from(4).frontier(&Antichain::from_elem(10)), Antichain::from_elem(4));
}

#[test]
fn a_policy_takes_effect_at_once() {
    let mut instance = instance(&[10]);
    instance.activate(&storage()).set_read_policy(vec![(10, valid_from(9))]).unwrap();
    assert_eq!(since(&instance, 10), Antichain::from_elem(9));
    assert_eq!(instance.collection(10).unwrap().implied_capability, Antichain::from_elem(9));
    assert_eq!(instance.take_actions().len(), 1);
}

#[test]
fn a_capability_is_not_recovered() {
    let mut instance = instance(&[10]);
    instance.activate(&storage()).set_read_policy(vec![(10, valid_from(9))]).unwrap();
    instance.take_actions();
    instance.activate(&storage()).set_read_policy(vec![(10, valid_from(6))]).unwrap();
    assert_eq!(since(&instance, 10), Antichain::from_elem(9));
    match &instance.collection(10).unwrap().read_policy {
        ReadPolicy::ValidFrom(frontier) => assert_eq!(*frontier, Antichain::from_elem(6)),
        other => panic!("unexpected policy {:?}", other),
    }
    assert!(instance.take_actions().is_empty());
}

#[test]
fn a_policy_that_changes_nothing_sends_nothing() {
    let mut instance = instance(&[10]);
    instance.activate(&storage()).set_read_policy(vec![(10, valid_from(5))]).unwrap();
    assert!(instance.take_actions().is_empty());
}

#[test]
fn repeated_identifiers_conclude_with_the_last_policy() {
    let mut instance = instance(&[10, 11]);
    instance
        .activate(&storage())
        .set_read_policy(vec![(10, valid_from(8)), (11, valid_from(7)), (10, valid_from(12))])
        .unwrap();
    assert_eq!(since(&instance, 10), Antichain::from_elem(12));
    assert_eq!(since(&instance, 11), Antichain::from_elem(7));
    // All capabilities that were given up are gone.
    instance.activate(&storage()).drop_collections(vec![10]).unwrap();
    assert_eq!(since(&instance, 10), Antichain::new());
}

#[test]
fn other_collections_keep_their_policies() {
    let mut instance = instance(&[10, 11]);
    instance.activate(&storage()).set_read_policy(vec![(10, valid_from(8))]).unwrap();
    match &instance.collection(11).unwrap().read_policy {
        ReadPolicy::ValidFrom(frontier) => assert_eq!(*frontier, Antichain::from_elem(5)),
        other => panic!("unexpected policy {:?}", other),
    }
    assert_eq!(since(&instance, 11), Antichain::from_elem(5));
}

#[test]
fn a_policy_for_an_unknown_collection_is_refused() {
    let mut instance = instance(&[10]);
    let result = instance
        .activate(&storage())
        .set_read_policy(vec![(10, valid_from(8)), (12, valid_from(7)), (10, valid_from(9))]);
    assert_eq!(result, Err(CollectionMissing(12)));
    // What came before it is assigned, and has no consequence.
    assert_eq!(instance.collection(10).unwrap().implied_capability, Antichain::from_elem(8));
    assert_eq!(since(&instance, 10), Antichain::from_elem(5));
    assert!(instance.take_actions().is_empty());
}

#[test]
fn reports_move_lagging_capabilities_ahead() {
    let mut instance = instance(&[10]);
    instance
        .activate(&storage())
        .set_read_policy(vec![(10, ReadPolicy::LagWriteFrontier(LagBy { lag: 2 }))])
        .unwrap();
    assert_eq!(since(&instance, 10), Antichain::from_elem(5));
    report(&mut instance, 10, 9);
    assert_eq!(since(&instance, 10), Antichain::from_elem(7));
    report(&mut instance, 10, 8);
    assert_eq!(since(&instance, 10), Antichain::from_elem(7));
    assert_eq!(instance.collection(10).unwrap().write_frontier, Antichain::from_elem(9));
    report(&mut instance, 10, 20);
    assert_eq!(since(&instance, 10), Antichain::from_elem(18));
}

#[test]
fn compaction_goes_from_readers_to_what_they_read() {
    let mut instance = instance(&[10, 11]);
    instance
        .activate(&storage())
        .set_read_policy(vec![(10, valid_from(8)), (11, valid_from(9))])
        .unwrap();
    match &instance.take_actions()[..] {
        [Action::Send { command, .. }] => {
            let text = format!("{:?}", command);
            let first = text.find("(11,").unwrap();
            let second = text.find("(10,").unwrap();
            assert!(first < second);
        }
        other => panic!("unexpected actions {:?}", other),
    }
}
