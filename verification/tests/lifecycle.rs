use compute_controller::action::Action;
use compute_controller::collection::CollectionState;
use compute_controller::command::{
    ComputeCommand, ComputeReplicaLocation, ComputeStartupEpoch, LoggingConfig,
};
use compute_controller::ids::CollectionMissing;
use compute_controller::instance::Instance;
use compute_controller::policy::LagBy;
use compute_controller::response::{ComputeControllerResponse, ComputeResponse, PeekResponse};
use compute_controller::storage::StorageController;
use std::collections::{BTreeMap, BTreeSet};
use std::sync::Arc;
use timely::progress::Antichain;

type TestInstance = Instance<u32, LagBy>;

fn instance(logs: &[(u64, u64)]) -> TestInstance {
    Instance::new(1, logs.iter().copied().collect(), 1000, 7)
}

fn storage() -> StorageController<u32> {
    StorageController { collections: BTreeMap::new() }
}

fn logging() -> LoggingConfig<u32> {
    LoggingConfig {
        settings: Arc::new(0),
        index_logs: BTreeMap::new(),
        sink_logs: BTreeMap::new(),
    }
}

#[test]
fn new_instance_sends_its_first_commands() {
    let mut instance = instance(&[]);
    assert!(instance.replica_ids().is_empty());
    assert!(!instance.wants_processing());
    let actions = instance.take_actions();
    assert_eq!(actions.len(), 2);
    match &actions[0] {
        Action::Send { command, replicas } => {
            assert!(replicas.is_empty());
            match &**command {
                ComputeCommand::CreateTimely { comm_config, epoch } => {
                    assert!(comm_config.is_none());
                    assert_eq!(*epoch, ComputeStartupEpoch { envd: 7, replica: 0 });
                }
                other => panic!("unexpected command {:?}", other),
            }
        }
        other => panic!("unexpected action {:?}", other),
    }
    match &actions[1] {
        Action::Send { command, .. } => match &**command {
            ComputeCommand::CreateInstance(config) => {
                assert!(config.logging.is_none());
                assert_eq!(config.max_result_size, 1000);
            }
            other => panic!("unexpected command {:?}", other),
        },
        other => panic!("unexpected action {:?}", other),
    }
    assert!(instance.take_actions().is_empty());
}

#[test]
fn arranged_logs_are_collections_from_the_start() {
    let instance = instance(&[(4, 40), (5, 50), (6, 40)]);
    for id in [40, 50] {
        let log: &CollectionState<LagBy> = instance.collection(id).unwrap();
        assert!(log.log_collection);
        assert_eq!(log.read_frontier(), Antichain::from_elem(0));
        assert_eq!(log.write_frontier, Antichain::from_elem(0));
        assert_eq!(log.implied_capability, Antichain::from_elem(0));
        assert!(log.storage_dependencies.is_empty());
        assert!(log.compute_dependencies.is_empty());
        assert!(log.replica_write_frontiers.is_empty());
    }
    assert_eq!(instance.collection(4).err(), Some(CollectionMissing(4)));
}

#[test]
fn initialization_complete_is_a_command() {
    let mut instance = instance(&[]);
    instance.take_actions();
    instance.initialization_complete();
    match &instance.take_actions()[..] {
        [Action::Send { command, .. }] => {
            assert!(matches!(&**command, ComputeCommand::InitializationComplete))
        }
        other => panic!("unexpected actions {:?}", other),
    }
}

#[test]
fn commands_go_to_every_replica_with_its_start() {
    let storage = storage();
    let mut instance = instance(&[]);
    for id in [3, 9] {
        instance
            .activate(&storage)
            .add_replica(id, ComputeReplicaLocation::Unmanaged(0), logging())
            .unwrap();
    }
    assert_eq!(instance.replica_ids(), vec![3, 9]);
    instance.take_actions();
    instance.activate(&storage).update_max_result_size(55);
    match &instance.take_actions()[..] {
        [Action::Send { command, replicas }] => {
            assert!(matches!(&**command, ComputeCommand::UpdateMaxResultSize(55)));
            assert_eq!(*replicas, BTreeMap::from([(3, 1), (9, 1)]));
        }
        other => panic!("unexpected actions {:?}", other),
    }
}

#[test]
fn receiving_from_nobody_gives_nothing() {
    let mut instance = instance(&[]);
    assert!(instance.recv(None).is_none());
    assert!(!instance.wants_processing());
}

#[test]
fn received_responses_are_returned_and_failures_remembered() {
    let storage = storage();
    let mut instance = instance(&[]);
    instance
        .activate(&storage)
        .add_replica(3, ComputeReplicaLocation::Unmanaged(0), logging())
        .unwrap();
    match instance.recv(Some((3, Some(ComputeResponse::FrontierUppers(vec![]))))) {
        Some(Ok((3, ComputeResponse::FrontierUppers(uppers)))) => assert!(uppers.is_empty()),
        other => panic!("unexpected result {:?}", other),
    }
    assert!(!instance.wants_processing());
    assert!(matches!(instance.recv(Some((3, None))), Some(Err(3))));
    assert!(instance.wants_processing());
    instance.activate(&storage).rehydrate_failed_replicas();
    assert!(!instance.wants_processing());
}

#[test]
fn failed_sends_count_for_the_start_they_belong_to() {
    let storage = storage();
    let mut instance = instance(&[]);
    instance.send_failed(3, 1);
    assert!(!instance.wants_processing());
    instance
        .activate(&storage)
        .add_replica(3, ComputeReplicaLocation::Unmanaged(0), logging())
        .unwrap();
    instance.send_failed(3, 2);
    assert!(!instance.wants_processing());
    instance.send_failed(3, 1);
    assert!(instance.wants_processing());
    instance.activate(&storage).rehydrate_failed_replicas();
    assert!(!instance.wants_processing());
    // The start that has failed is over.
    instance.send_failed(3, 1);
    assert!(!instance.wants_processing());
    instance.send_failed(3, 2);
    assert!(instance.wants_processing());
}

#[test]
fn ready_responses_are_delivered_in_order() {
    let storage = storage();
    let mut instance = instance(&[]);
    assert!(instance.next_response().is_none());
    instance.activate(&storage).cancel_peeks(BTreeSet::from([8, 2]));
    assert!(instance.wants_processing());
    for uuid in [2, 8] {
        match instance.next_response() {
            Some(ComputeControllerResponse::PeekResponse(id, PeekResponse::Canceled, None)) => {
                assert_eq!(id, uuid)
            }
            other => panic!("unexpected response {:?}", other),
        }
    }
    assert!(instance.next_response().is_none());
    assert!(!instance.wants_processing());
}

#[test]
fn reduced_history_is_what_new_replicas_are_told() {
    let storage = storage();
    let mut instance = instance(&[]);
    instance.reduce_history(vec![Arc::new(ComputeCommand::InitializationComplete)]);
    instance.take_actions();
    instance
        .activate(&storage)
        .add_replica(3, ComputeReplicaLocation::Unmanaged(0), logging())
        .unwrap();
    match instance.take_actions().pop() {
        Some(Action::SpawnReplica { commands, .. }) => {
            assert_eq!(commands.len(), 1);
            assert!(matches!(&*commands[0], ComputeCommand::InitializationComplete));
        }
        other => panic!("unexpected action {:?}", other),
    }
}

#[test]
fn an_instance_without_replicas_can_be_dropped() {
    let storage = storage();
    let mut instance = instance(&[(4, 40)]);
    instance
        .activate(&storage)
        .add_replica(3, ComputeReplicaLocation::Unmanaged(0), logging())
        .unwrap();
    instance.activate(&storage).remove_replica(3).unwrap();
    assert!(instance.replica_ids().is_empty());
    instance.drop();
}
