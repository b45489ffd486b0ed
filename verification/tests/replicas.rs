use compute_controller::action::Action;
use compute_controller::command::{
    ComputeCommand, ComputeReplicaLocation, ComputeSinkDesc, ComputeStartupEpoch,
    DataflowDescription, LoggingConfig, SourceInstanceDesc,
};
use compute_controller::error::{ReplicaExists, ReplicaMissing};
use compute_controller::instance::Instance;
use compute_controller::policy::LagBy;
use compute_controller::response::{ComputeControllerResponse, ComputeResponse, PeekResponse};
use compute_controller::storage::{StorageCollectionState, StorageController};
use std::collections::BTreeMap;
use std::sync::Arc;
use timely::progress::{Antichain, ChangeBatch};

type TestInstance = Instance<u32, LagBy>;

fn storage(ids: &[u64]) -> StorageController<u32> {
    StorageController {
        collections: ids
            .iter()
            .map(|id| {
                let state = StorageCollectionState {
                    read_frontier: Antichain::from_elem(0),
                    collection_metadata: Arc::new(0),
                    typ: Arc::new(0),
                };
                (*id, state)
            })
            .collect(),
    }
}

fn logging(sinks: &[(u64, u64)]) -> LoggingConfig<u32> {
    LoggingConfig {
        settings: Arc::new(5),
        index_logs: BTreeMap::new(),
        sink_logs: sinks.iter().map(|(variant, id)| (*variant, (*id, Arc::new(0)))).collect(),
    }
}

fn instance() -> TestInstance {
    let mut instance: TestInstance = Instance::new(1, BTreeMap::from([(4, 40)]), 1000, 7);
    instance.take_actions();
    instance
}

fn add(instance: &mut TestInstance, id: u64) {
    instance
        .activate(&storage(&[]))
        .add_replica(id, ComputeReplicaLocation::Unmanaged(0), logging(&[]))
        .unwrap();
}

fn create(instance: &mut TestInstance, id: u64, source: u64, as_of: u64) {
    let sink_exports: BTreeMap<u64, ComputeSinkDesc<u32, ()>> = BTreeMap::new();
    let desc = SourceInstanceDesc { storage_metadata: (), arguments: 0, typ: Arc::new(0) };
    let dataflow = DataflowDescription {
        source_imports: BTreeMap::from([(source, (desc, false))]),
        index_imports: BTreeMap::new(),
        objects_to_build: vec![],
        index_exports: BTreeMap::from([(id, 0)]),
        sink_exports,
        as_of: Some(Antichain::from_elem(as_of)),
        until: Antichain::new(),
        debug_name: "index".to_string(),
    };
    let storage = storage(&[source]);
    instance.activate(&storage).create_dataflows(vec![dataflow], &vec![&storage]).unwrap();
}

fn asked(actions: &[Action<u32>], source: u64) -> Vec<(u64, i64)> {
    let mut all: ChangeBatch<u64> = ChangeBatch::new();
    for action in actions {
        if let Action::UpdateStorageReadCapabilities(changes) = action {
            if let Some(batch) = changes.get(&source) {
                all.extend(batch.clone().into_inner().into_iter());
            }
        }
    }
    all.into_inner()
}

#[test]
fn a_replica_exists_only_once() {
    let mut instance = instance();
    add(&mut instance, 1);
    instance.take_actions();
    let result = instance.activate(&storage(&[])).add_replica(
        1,
        ComputeReplicaLocation::Managed(0),
        logging(&[(8, 80)]),
    );
    assert_eq!(result, Err(ReplicaExists(1)));
    assert!(instance.collection(80).is_err());
    assert!(instance.take_actions().is_empty());
}

#[test]
fn an_unknown_replica_cannot_be_removed() {
    let mut instance = instance();
    let result = instance.activate(&storage(&[])).remove_replica(1);
    assert_eq!(result, Err(ReplicaMissing(1)));
    assert!(instance.take_actions().is_empty());
}

#[test]
fn a_new_replica_is_started_and_caught_up() {
    let mut instance = instance();
    instance.initialization_complete();
    instance.take_actions();
    instance
        .activate(&storage(&[]))
        .add_replica(1, ComputeReplicaLocation::Managed(66), logging(&[(8, 80)]))
        .unwrap();
    let actions = instance.take_actions();
    match actions.last() {
        Some(Action::SpawnReplica {
            id,
            instance_id,
            location,
            logging_config,
            epoch,
            commands,
        }) => {
            assert_eq!(*id, 1);
            assert_eq!(*instance_id, 1);
            assert!(matches!(&**location, ComputeReplicaLocation::Managed(66)));
            assert_eq!(*logging_config.settings, 5);
            assert_eq!(logging_config.index_logs, BTreeMap::from([(4, 40)]));
            assert_eq!(logging_config.sink_logs[&8].0, 80);
            assert_eq!(*epoch, ComputeStartupEpoch { envd: 7, replica: 1 });
            assert_eq!(commands.len(), 3);
            assert!(matches!(&*commands[0], ComputeCommand::CreateTimely { .. }));
            assert!(matches!(&*commands[1], ComputeCommand::CreateInstance(_)));
            assert!(matches!(&*commands[2], ComputeCommand::InitializationComplete));
        }
        other => panic!("unexpected action {:?}", other),
    }
    assert!(instance.collection(80).unwrap().log_collection);
}

#[test]
fn a_replica_starts_with_the_collections_that_it_maintains() {
    let mut instance = instance();
    create(&mut instance, 10, 3, 6);
    instance
        .activate(&storage(&[3]))
        .add_replica(1, ComputeReplicaLocation::Unmanaged(0), logging(&[(8, 80)]))
        .unwrap();
    instance.take_actions();
    instance
        .activate(&storage(&[3]))
        .add_replica(2, ComputeReplicaLocation::Unmanaged(0), logging(&[(8, 81)]))
        .unwrap();
    let reported = |id: u64, replica: u64| {
        instance.collection(id).unwrap().replica_write_frontiers.get(&replica).cloned()
    };
    assert_eq!(reported(10, 2), Some(Antichain::from_elem(6)));
    assert_eq!(reported(40, 2), Some(Antichain::from_elem(0)));
    assert_eq!(reported(81, 2), Some(Antichain::from_elem(0)));
    assert_eq!(reported(80, 2), None);
    assert_eq!(reported(80, 1), Some(Antichain::from_elem(0)));
    assert_eq!(reported(81, 1), None);
}

#[test]
fn peeks_that_were_answered_are_not_replayed() {
    let mut instance = instance();
    add(&mut instance, 1);
    for uuid in [77, 78] {
        instance
            .activate(&storage(&[]))
            .peek(40, None, uuid, 3, 0, 0, None, None)
            .unwrap();
    }
    let answer = ComputeResponse::PeekResponse(77, PeekResponse::Rows(0), None);
    assert!(instance.activate(&storage(&[])).handle_response(answer, 1).is_some());
    instance.take_actions();
    add(&mut instance, 2);
    match instance.take_actions().pop() {
        Some(Action::SpawnReplica { commands, .. }) => {
            let peeks: Vec<u128> = commands
                .iter()
                .filter_map(|command| match &**command {
                    ComputeCommand::Peek(peek) => Some(peek.uuid),
                    _ => None,
                })
                .collect();
            assert_eq!(peeks, vec![78]);
        }
        other => panic!("unexpected action {:?}", other),
    }
}

#[test]
fn a_managed_replica_is_removed_from_the_orchestrator() {
    let mut instance = instance();
    instance
        .activate(&storage(&[]))
        .add_replica(1, ComputeReplicaLocation::Managed(0), logging(&[]))
        .unwrap();
    add(&mut instance, 2);
    instance.take_actions();
    instance.activate(&storage(&[])).remove_replica(1).unwrap();
    match &instance.take_actions()[..] {
        [Action::DropReplica { instance_id: 1, id: 1 }, Action::Disconnect { id: 1 }] => {}
        other => panic!("unexpected actions {:?}", other),
    }
    instance.activate(&storage(&[])).remove_replica(2).unwrap();
    match &instance.take_actions()[..] {
        [Action::Disconnect { id: 2 }] => {}
        other => panic!("unexpected actions {:?}", other),
    }
}

#[test]
fn nothing_is_left_of_a_removed_replica() {
    let mut instance = instance();
    create(&mut instance, 10, 3, 6);
    add(&mut instance, 1);
    add(&mut instance, 2);
    let uppers = ComputeResponse::FrontierUppers(vec![(10, Antichain::from_elem(9))]);
    instance.activate(&storage(&[3])).handle_response(uppers, 1);
    for (uuid, target) in [(77, Some(1)), (78, Some(2)), (79, None)] {
        instance
            .activate(&storage(&[3]))
            .peek(40, None, uuid, 3, 0, 0, target, Some(Arc::new(uuid as u32)))
            .unwrap();
    }
    instance.recv(Some((1, None)));
    instance.take_actions();
    instance.activate(&storage(&[3])).remove_replica(1).unwrap();
    assert_eq!(asked(&instance.take_actions(), 3), vec![(9, -1)]);
    assert_eq!(instance.replica_ids(), vec![2]);
    for id in [10, 40] {
        assert!(!instance.collection(id).unwrap().replica_write_frontiers.contains_key(&1));
    }
    match instance.next_response() {
        Some(ComputeControllerResponse::PeekResponse(77, PeekResponse::Error(text), context)) => {
            assert_eq!(text, "target replica was dropped");
            assert_eq!(context.as_deref(), Some(&77));
        }
        other => panic!("unexpected response {:?}", other),
    }
    assert!(!instance.wants_processing());
    for uuid in [78, 79] {
        let answer = ComputeResponse::PeekResponse(uuid, PeekResponse::Rows(0), None);
        assert!(instance.activate(&storage(&[3])).handle_response(answer, 2).is_some());
    }
}

#[test]
fn failed_replicas_are_started_again() {
    let mut instance = instance();
    create(&mut instance, 10, 3, 6);
    for id in [1, 2, 3] {
        add(&mut instance, id);
    }
    let uppers = ComputeResponse::FrontierUppers(vec![(10, Antichain::from_elem(9))]);
    instance.activate(&storage(&[3])).handle_response(uppers, 3);
    instance.recv(Some((3, None)));
    instance.send_failed(1, 1);
    instance.take_actions();
    instance.activate(&storage(&[3])).rehydrate_failed_replicas();
    assert!(!instance.wants_processing());
    assert_eq!(instance.replica_ids(), vec![1, 2, 3]);
    let actions = instance.take_actions();
    let starts: Vec<(u64, u64)> = actions
        .iter()
        .filter_map(|action| match action {
            Action::SpawnReplica { id, epoch, .. } => Some((*id, epoch.replica)),
            _ => None,
        })
        .collect();
    assert_eq!(starts, vec![(1, 2), (3, 2)]);
    let closed: Vec<u64> = actions
        .iter()
        .filter_map(|action| match action {
            Action::Disconnect { id } => Some(*id),
            _ => None,
        })
        .collect();
    assert_eq!(closed, vec![1, 3]);
    // What the replica had reported is forgotten; it starts at the read frontier again.
    assert_eq!(asked(&actions, 3), vec![(6, 1), (9, -1)]);
    assert_eq!(
        instance.collection(10).unwrap().replica_write_frontiers[&3],
        Antichain::from_elem(6)
    );
    assert_eq!(instance.collection(10).unwrap().write_frontier, Antichain::from_elem(9));
}

#[test]
fn a_removed_replica_lets_dropped_collections_go() {
    let mut instance = instance();
    create(&mut instance, 10, 3, 6);
    add(&mut instance, 1);
    instance.activate(&storage(&[3])).drop_collections(vec![10]).unwrap();
    assert!(instance.collection(10).is_ok());
    instance.activate(&storage(&[3])).remove_replica(1).unwrap();
    assert!(instance.collection(10).is_err());
    assert_eq!(asked(&instance.take_actions(), 3), vec![]);
}
