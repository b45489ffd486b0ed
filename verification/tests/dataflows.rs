use compute_controller::action::Action;
use compute_controller::command::{
    ComputeCommand, ComputeReplicaLocation, ComputeSinkConnection, ComputeSinkDesc,
    DataflowDescription, LoggingConfig, PersistSinkConnection, SourceInstanceDesc,
};
use compute_controller::error::DataflowCreationError;
use compute_controller::ids::CollectionMissing;
use compute_controller::instance::Instance;
use compute_controller::policy::{LagBy, ReadPolicy};
use compute_controller::response::ComputeResponse;
use compute_controller::storage::{StorageCollectionState, StorageController};
use std::collections::BTreeMap;
use std::sync::Arc;
use timely::progress::{Antichain, ChangeBatch};

type TestInstance = Instance<u32, LagBy>;
type Changes = BTreeMap<u64, Vec<(u64, i64)>>;

fn storage(sinces: &[(u64, u64)]) -> StorageController<u32> {
    StorageController {
        collections: sinces
            .iter()
            .map(|(id, since)| {
                let state = StorageCollectionState {
                    read_frontier: Antichain::from_elem(*since),
                    collection_metadata: Arc::new(1000 + *id as u32),
                    typ: Arc::new(2000 + *id as u32),
                };
                (*id, state)
            })
            .collect(),
    }
}

fn logging() -> LoggingConfig<u32> {
    LoggingConfig {
        settings: Arc::new(0),
        index_logs: BTreeMap::new(),
        sink_logs: BTreeMap::new(),
    }
}

fn instance(replicas: &[u64]) -> TestInstance {
    let mut instance: TestInstance = Instance::new(1, BTreeMap::new(), 1000, 7);
    for id in replicas {
        instance
            .activate(&storage(&[]))
            .add_replica(*id, ComputeReplicaLocation::Unmanaged(0), logging())
            .unwrap();
    }
    instance.take_actions();
    instance
}

fn dataflow(sources: &[u64], indexes: &[u64], exports: &[u64]) -> DataflowDescription<u32, ()> {
    DataflowDescription {
        source_imports: sources
            .iter()
            .map(|id| {
                let desc = SourceInstanceDesc {
                    storage_metadata: (),
                    arguments: 30 + *id as u32,
                    typ: Arc::new(0),
                };
                (*id, (desc, true))
            })
            .collect(),
        index_imports: indexes.iter().map(|id| (*id, 0)).collect(),
        objects_to_build: vec![8, 9],
        index_exports: exports.iter().map(|id| (*id, 40)).collect(),
        sink_exports: BTreeMap::new(),
        as_of: Some(Antichain::from_elem(5)),
        until: Antichain::from_elem(50),
        debug_name: "dataflow".to_string(),
    }
}

fn persist_sink(from: u64) -> ComputeSinkDesc<u32, ()> {
    ComputeSinkDesc {
        from,
        from_desc: 60,
        connection: ComputeSinkConnection::Persist(PersistSinkConnection {
            value_desc: 61,
            storage_metadata: (),
        }),
        as_of: 62,
    }
}

fn subscribe_sink(from: u64) -> ComputeSinkDesc<u32, ()> {
    ComputeSinkDesc {
        from,
        from_desc: 60,
        connection: ComputeSinkConnection::Subscribe(63),
        as_of: 62,
    }
}

fn inner(batch: &ChangeBatch<u64>) -> Vec<(u64, i64)> {
    batch.clone().into_inner()
}

/// What storage is asked to change, all requests added up and zeros left out.
fn asked(actions: &[Action<u32>]) -> Changes {
    let mut all: BTreeMap<u64, ChangeBatch<u64>> = BTreeMap::new();
    for action in actions {
        if let Action::UpdateStorageReadCapabilities(changes) = action {
            for (id, batch) in changes {
                all.entry(*id).or_insert_with(ChangeBatch::new).extend(inner(batch).into_iter());
            }
        }
    }
    all.into_iter()
        .map(|(id, batch)| (id, batch.into_inner()))
        .filter(|(_, batch)| !batch.is_empty())
        .collect()
}

fn since(instance: &TestInstance, id: u64) -> Antichain<u64> {
    instance.collection(id).unwrap().read_frontier()
}

#[test]
fn a_dataflow_without_as_of_is_refused() {
    let mut instance = instance(&[]);
    let mut wanted = dataflow(&[], &[], &[10]);
    wanted.as_of = None;
    let storage = storage(&[]);
    let result = instance.activate(&storage).create_dataflows(vec![wanted], &vec![&storage]);
    assert_eq!(result, Err(DataflowCreationError::MissingAsOf));
    assert!(instance.collection(10).is_err());
    assert!(instance.take_actions().is_empty());
}

#[test]
fn a_dataflow_over_unknown_collections_is_refused() {
    let mut instance = instance(&[]);
    let storage = storage(&[(3, 0)]);
    let result = instance
        .activate(&storage)
        .create_dataflows(vec![dataflow(&[3, 4], &[9], &[10])], &vec![&storage]);
    assert_eq!(result, Err(DataflowCreationError::CollectionMissing(4)));
    let result = instance
        .activate(&storage)
        .create_dataflows(vec![dataflow(&[3], &[9], &[10])], &vec![&storage]);
    assert_eq!(result, Err(DataflowCreationError::CollectionMissing(9)));
    assert!(instance.take_actions().is_empty());
}

#[test]
fn a_dataflow_over_collections_that_are_compacted_further_is_refused() {
    let mut instance = instance(&[]);
    let storage = storage(&[(3, 6), (4, 5)]);
    let result = instance
        .activate(&storage)
        .create_dataflows(vec![dataflow(&[3], &[], &[10])], &vec![&storage]);
    assert_eq!(result, Err(DataflowCreationError::SinceViolation(3)));
    instance
        .activate(&storage)
        .create_dataflows(vec![dataflow(&[4], &[], &[10])], &vec![&storage])
        .unwrap();
    instance
        .activate(&storage)
        .set_read_policy(vec![(10, ReadPolicy::ValidFrom(Antichain::from_elem(6)))])
        .unwrap();
    let result = instance
        .activate(&storage)
        .create_dataflows(vec![dataflow(&[], &[10], &[11])], &vec![&storage]);
    assert_eq!(result, Err(DataflowCreationError::SinceViolation(10)));
}

#[test]
fn dataflows_before_a_refused_one_stay_tracked() {
    let mut instance = instance(&[]);
    let storage = storage(&[(3, 0)]);
    let result = instance.activate(&storage).create_dataflows(vec![
        dataflow(&[3], &[], &[10]),
        dataflow(&[4], &[], &[11]),
        dataflow(&[3], &[], &[12]),
    ], &vec![&storage, &storage, &storage]);
    assert_eq!(result, Err(DataflowCreationError::CollectionMissing(4)));
    assert!(instance.collection(10).is_ok());
    assert!(instance.collection(11).is_err());
    assert!(instance.collection(12).is_err());
    let sent = instance.take_actions();
    assert!(!sent.iter().any(|action| matches!(action, Action::Send { .. })));
}

#[test]
fn outputs_start_at_the_as_of() {
    let mut instance = instance(&[1]);
    let storage = storage(&[(3, 0)]);
    let mut wanted = dataflow(&[3], &[], &[10]);
    wanted.sink_exports.insert(11, subscribe_sink(10));
    instance.activate(&storage).create_dataflows(vec![wanted], &vec![&storage]).unwrap();
    for id in [10, 11] {
        let state = instance.collection(id).unwrap();
        assert!(!state.log_collection);
        assert_eq!(state.read_frontier(), Antichain::from_elem(5));
        assert_eq!(state.implied_capability, Antichain::from_elem(5));
        assert_eq!(state.write_frontier, Antichain::from_elem(5));
        assert_eq!(state.storage_dependencies, vec![3]);
        assert!(state.compute_dependencies.is_empty());
        assert_eq!(state.replica_write_frontiers[&1], Antichain::from_elem(5));
        match &state.read_policy {
            ReadPolicy::ValidFrom(frontier) => assert_eq!(*frontier, Antichain::from_elem(5)),
            other => panic!("unexpected policy {:?}", other),
        }
    }
}

#[test]
fn storage_holds_what_outputs_and_replicas_read() {
    let mut instance = instance(&[1, 2]);
    let storage = storage(&[(3, 0), (4, 5)]);
    let mut wanted = dataflow(&[3, 4], &[], &[10, 11]);
    wanted.sink_exports.insert(12, subscribe_sink(10));
    instance.activate(&storage).create_dataflows(vec![wanted], &vec![&storage]).unwrap();
    // Three outputs, and each of them on two replicas.
    let actions = instance.take_actions();
    assert_eq!(asked(&actions), BTreeMap::from([(3, vec![(5, 9)]), (4, vec![(5, 9)])]));
    match &actions[0] {
        Action::UpdateStorageReadCapabilities(changes) => {
            assert_eq!(inner(&changes[&3]), vec![(5, 3)]);
            assert_eq!(inner(&changes[&4]), vec![(5, 3)]);
        }
        other => panic!("unexpected action {:?}", other),
    }
}

#[test]
fn indexes_hold_what_their_readers_read() {
    let mut instance = instance(&[]);
    let storage = storage(&[]);
    instance
        .activate(&storage)
        .create_dataflows(vec![dataflow(&[], &[], &[10])], &vec![&storage])
        .unwrap();
    let mut reader = dataflow(&[], &[10], &[11, 12]);
    reader.as_of = Some(Antichain::from_elem(7));
    instance.activate(&storage).create_dataflows(vec![reader], &vec![&storage]).unwrap();
    instance.take_actions();
    let valid_from = |id: u64, time: u64| (id, ReadPolicy::ValidFrom(Antichain::from_elem(time)));
    instance.activate(&storage).set_read_policy(vec![valid_from(10, 20)]).unwrap();
    assert_eq!(since(&instance, 10), Antichain::from_elem(7));
    instance.activate(&storage).set_read_policy(vec![valid_from(11, 9)]).unwrap();
    assert_eq!(since(&instance, 10), Antichain::from_elem(7));
    instance.activate(&storage).set_read_policy(vec![valid_from(12, 30)]).unwrap();
    assert_eq!(since(&instance, 10), Antichain::from_elem(9));
    instance.activate(&storage).set_read_policy(vec![valid_from(11, 30)]).unwrap();
    assert_eq!(since(&instance, 10), Antichain::from_elem(20));
    let compactions: Vec<_> = instance
        .take_actions()
        .into_iter()
        .filter_map(|action| match action {
            Action::Send { command, .. } => match &*command {
                ComputeCommand::AllowCompaction(frontiers) => Some(
                    frontiers
                        .iter()
                        .map(|(id, frontier)| (*id, frontier.elements().to_vec()))
                        .collect::<Vec<_>>(),
                ),
                _ => None,
            },
            _ => None,
        })
        .collect();
    assert_eq!(
        compactions,
        vec![
            vec![(10, vec![7])],
            vec![(11, vec![9])],
            vec![(12, vec![30]), (10, vec![9])],
            vec![(11, vec![30]), (10, vec![20])],
        ]
    );
}

#[test]
fn replicas_are_told_what_storage_knows() {
    let mut instance = instance(&[1]);
    let storage = storage(&[(3, 0), (12, 0)]);
    let mut wanted = dataflow(&[3], &[], &[10]);
    wanted.sink_exports.insert(11, subscribe_sink(10));
    wanted.sink_exports.insert(12, persist_sink(10));
    instance.activate(&storage).create_dataflows(vec![wanted], &vec![&storage]).unwrap();
    let actions = instance.take_actions();
    let command = match actions.last() {
        Some(Action::Send { command, .. }) => command,
        other => panic!("unexpected action {:?}", other),
    };
    let sent = match &**command {
        ComputeCommand::CreateDataflows(dataflows) => {
            assert_eq!(dataflows.len(), 1);
            &dataflows[0]
        }
        other => panic!("unexpected command {:?}", other),
    };
    let (source, monotonic) = &sent.source_imports[&3];
    assert!(monotonic);
    assert_eq!(*source.storage_metadata, 1003);
    assert_eq!(source.arguments, 33);
    assert_eq!(*source.typ, 2003);
    assert!(matches!(sent.sink_exports[&11].connection, ComputeSinkConnection::Subscribe(63)));
    match &sent.sink_exports[&12].connection {
        ComputeSinkConnection::Persist(connection) => {
            assert_eq!(connection.value_desc, 61);
            assert_eq!(*connection.storage_metadata, 1012);
        }
        other => panic!("unexpected connection {:?}", other),
    }
    assert_eq!(sent.sink_exports[&12].from, 10);
    assert_eq!(sent.sink_exports[&12].from_desc, 60);
    assert_eq!(sent.sink_exports[&12].as_of, 62);
    assert_eq!(sent.objects_to_build, vec![8, 9]);
    assert_eq!(sent.index_exports, BTreeMap::from([(10, 40)]));
    assert_eq!(sent.as_of, Some(Antichain::from_elem(5)));
    assert_eq!(sent.until, Antichain::from_elem(50));
    assert_eq!(sent.debug_name, "dataflow");
}

#[test]
fn a_sink_without_a_storage_collection_is_refused_after_tracking() {
    let mut instance = instance(&[1]);
    let storage = storage(&[(3, 0)]);
    let mut wanted = dataflow(&[3], &[], &[10]);
    wanted.sink_exports.insert(12, persist_sink(10));
    let result = instance.activate(&storage).create_dataflows(vec![wanted], &vec![&storage]);
    assert_eq!(result, Err(DataflowCreationError::CollectionMissing(12)));
    assert!(instance.collection(12).is_ok());
    let sent = instance.take_actions();
    assert!(!sent.iter().any(|action| matches!(action, Action::Send { .. })));
}

#[test]
fn dataflows_can_be_tracked_and_sent_one_by_one() {
    let mut instance = instance(&[1]);
    let known = storage(&[(3, 0)]);
    let wanted = dataflow(&[3], &[], &[10]);
    instance.activate(&known).install_dataflow(&wanted).unwrap();
    assert_eq!(since(&instance, 10), Antichain::from_elem(5));
    instance.take_actions();
    let result = instance.activate(&storage(&[])).send_dataflows(vec![wanted]);
    assert_eq!(result, Err(DataflowCreationError::CollectionMissing(3)));
    assert!(instance.take_actions().is_empty());
    let wanted = dataflow(&[3], &[], &[10]);
    instance.activate(&known).send_dataflows(vec![wanted]).unwrap();
    assert_eq!(instance.take_actions().len(), 1);
}

#[test]
fn a_dataflow_of_no_use_is_gone_at_once_on_one_replica() {
    let mut instance = instance(&[1]);
    let mut wanted = dataflow(&[], &[], &[10]);
    wanted.as_of = Some(Antichain::new());
    let storage = storage(&[]);
    instance.activate(&storage).create_dataflows(vec![wanted], &vec![&storage]).unwrap();
    assert_eq!(instance.collection(10).err(), Some(CollectionMissing(10)));
}

#[test]
fn dropped_collections_go_when_nobody_needs_them() {
    let mut instance = instance(&[1, 2]);
    let storage = storage(&[(3, 0)]);
    instance
        .activate(&storage)
        .create_dataflows(vec![dataflow(&[3], &[], &[10])], &vec![&storage])
        .unwrap();
    instance
        .activate(&storage)
        .create_dataflows(vec![dataflow(&[], &[10], &[11])], &vec![&storage])
        .unwrap();
    instance.activate(&storage).drop_collections(vec![10]).unwrap();
    assert_eq!(since(&instance, 10), Antichain::from_elem(5));
    instance.activate(&storage).drop_collections(vec![11]).unwrap();
    assert_eq!(since(&instance, 10), Antichain::new());
    assert_eq!(since(&instance, 11), Antichain::new());
    let done = |id: u64| ComputeResponse::FrontierUppers(vec![(id, Antichain::new())]);
    instance.activate(&storage).handle_response(done(11), 1);
    assert!(instance.collection(11).is_ok());
    instance.activate(&storage).handle_response(done(11), 2);
    assert!(instance.collection(11).is_err());
    assert!(instance.collection(10).is_ok());
    for replica in [1, 2] {
        instance.activate(&storage).handle_response(done(10), replica);
    }
    assert!(instance.collection(10).is_err());
    // All that storage was asked to hold was given back.
    assert_eq!(asked(&instance.take_actions()), BTreeMap::new());
}

#[test]
fn dropping_an_unknown_collection_drops_none() {
    let mut instance = instance(&[]);
    let storage = storage(&[]);
    instance
        .activate(&storage)
        .create_dataflows(vec![dataflow(&[], &[], &[10])], &vec![&storage])
        .unwrap();
    instance.take_actions();
    let result = instance.activate(&storage).drop_collections(vec![10, 11]);
    assert_eq!(result, Err(CollectionMissing(11)));
    assert_eq!(since(&instance, 10), Antichain::from_elem(5));
    assert!(instance.take_actions().is_empty());
}

#[test]
fn write_frontiers_of_sinks_are_reported_to_storage() {
    let mut instance = instance(&[1, 2]);
    let storage = storage(&[(3, 0), (12, 0)]);
    let mut wanted = dataflow(&[3], &[], &[10]);
    wanted.sink_exports.insert(12, persist_sink(10));
    instance.activate(&storage).create_dataflows(vec![wanted], &vec![&storage]).unwrap();
    instance.take_actions();
    let reports = |actions: Vec<Action<u32>>| -> Vec<Vec<(u64, Vec<u64>)>> {
        actions
            .into_iter()
            .filter_map(|action| match action {
                Action::UpdateStorageWriteFrontiers(uppers) => Some(
                    uppers
                        .into_iter()
                        .map(|(id, upper)| (id, upper.elements().to_vec()))
                        .collect(),
                ),
                _ => None,
            })
            .collect()
    };
    let uppers = |time: u64| {
        ComputeResponse::FrontierUppers(vec![
            (10, Antichain::from_elem(time)),
            (12, Antichain::from_elem(time)),
            (99, Antichain::from_elem(time)),
        ])
    };
    instance.activate(&storage).handle_response(uppers(8), 1);
    let actions = instance.take_actions();
    assert_eq!(asked(&actions), BTreeMap::from([(3, vec![(5, -2), (8, 2)])]));
    assert_eq!(reports(actions), vec![vec![(12, vec![8])]]);
    // A replica that lags behind changes what is held for it, not the write frontier.
    instance.activate(&storage).handle_response(uppers(6), 2);
    let actions = instance.take_actions();
    assert_eq!(asked(&actions), BTreeMap::from([(3, vec![(5, -2), (6, 2)])]));
    assert_eq!(reports(actions), vec![vec![]]);
    assert_eq!(instance.collection(12).unwrap().write_frontier, Antichain::from_elem(8));
    assert_eq!(
        instance.collection(12).unwrap().replica_write_frontiers,
        BTreeMap::from([(1, Antichain::from_elem(8)), (2, Antichain::from_elem(6))])
    );
}

fn allows_compaction(actions: &[Action<u32>]) -> bool {
    actions.iter().any(|action| match action {
        Action::Send { command, .. } => matches!(**command, ComputeCommand::AllowCompaction(_)),
        _ => false,
    })
}

#[test]
fn each_dataflow_is_validated_against_storage_as_it_is_then() {
    let mut instance = instance(&[]);
    let now = storage(&[(3, 0), (4, 0)]);
    let later = storage(&[(3, 0), (4, 6)]);
    let result = instance.activate(&now).create_dataflows(
        vec![dataflow(&[3], &[], &[10]), dataflow(&[4], &[], &[11])],
        &vec![&later, &later],
    );
    assert_eq!(result, Err(DataflowCreationError::SinceViolation(4)));
    assert!(instance.collection(10).is_ok());
    assert!(instance.collection(11).is_err());
}

#[test]
fn a_collection_that_storage_gets_in_between_can_be_read() {
    let mut instance = instance(&[]);
    let now = storage(&[(3, 0)]);
    let mut later = storage(&[(3, 0), (4, 0)]);
    later.collections.get_mut(&3).unwrap().collection_metadata = Arc::new(77);
    instance
        .activate(&now)
        .create_dataflows(
            vec![dataflow(&[3], &[], &[10]), dataflow(&[4], &[], &[11])],
            &vec![&later, &later],
        )
        .unwrap();
    let actions = instance.take_actions();
    let command = match actions.last() {
        Some(Action::Send { command, .. }) => command,
        _ => panic!("no command"),
    };
    match &**command {
        ComputeCommand::CreateDataflows(dataflows) => {
            assert_eq!(*dataflows[0].source_imports[&3].0.storage_metadata, 77);
            assert_eq!(*dataflows[1].source_imports[&4].0.storage_metadata, 1004);
        }
        _ => panic!("another command"),
    }
}

#[test]
fn creating_a_dataflow_moves_no_read_frontier() {
    let mut instance = instance(&[1, 2]);
    let storage = storage(&[(3, 0)]);
    let mut reader = dataflow(&[3], &[10], &[11, 12]);
    reader.as_of = Some(Antichain::from_elem(9));
    instance
        .activate(&storage)
        .create_dataflows(vec![dataflow(&[3], &[], &[10]), reader], &vec![&storage, &storage])
        .unwrap();
    assert_eq!(since(&instance, 10), Antichain::from_elem(5));
    assert_eq!(since(&instance, 11), Antichain::from_elem(9));
    assert!(!allows_compaction(&instance.take_actions()));
}

#[test]
fn a_dataflow_that_is_created_and_dropped_leaves_nothing() {
    let mut instance = instance(&[]);
    let storage = storage(&[(3, 0)]);
    instance
        .activate(&storage)
        .create_dataflows(vec![dataflow(&[3], &[], &[10])], &vec![&storage])
        .unwrap();
    instance.take_actions();
    let mut wanted = dataflow(&[3], &[10], &[9, 11]);
    wanted.sink_exports.insert(12, subscribe_sink(10));
    wanted.as_of = Some(Antichain::from_elem(7));
    instance.activate(&storage).create_dataflows(vec![wanted], &vec![&storage]).unwrap();
    let mut actions = instance.take_actions();
    assert_eq!(asked(&actions), BTreeMap::from([(3, vec![(7, 3)])]));
    instance.activate(&storage).drop_collections(vec![11, 9, 12, 9]).unwrap();
    actions.extend(instance.take_actions());
    assert_eq!(asked(&actions), BTreeMap::new());
    for id in [9, 11, 12] {
        assert_eq!(instance.collection(id).err(), Some(CollectionMissing(id)));
    }
    assert_eq!(since(&instance, 10), Antichain::from_elem(5));
    instance.activate(&storage).drop_collections(vec![10]).unwrap();
    assert!(instance.collection(10).is_err());
}

#[test]
fn storage_is_asked_for_the_moves_of_a_collection_that_is_reported_twice() {
    let mut instance = instance(&[1]);
    let storage = storage(&[(3, 0)]);
    instance
        .activate(&storage)
        .create_dataflows(vec![dataflow(&[3], &[], &[10])], &vec![&storage])
        .unwrap();
    instance.take_actions();
    let uppers = vec![(10, Antichain::from_elem(7)), (10, Antichain::from_elem(9))];
    instance.activate(&storage).handle_response(ComputeResponse::FrontierUppers(uppers), 1);
    assert_eq!(asked(&instance.take_actions()), BTreeMap::from([(3, vec![(5, -1), (9, 1)])]));
}

#[test]
fn imports_can_be_validated_beforehand() {
    let instance = instance(&[]);
    let storage = storage(&[(3, 6), (4, 5)]);
    let validate = |dataflow| instance.validate_imports(&storage, &dataflow);
    assert_eq!(
        validate(dataflow(&[3], &[], &[10])),
        Some(DataflowCreationError::SinceViolation(3))
    );
    assert_eq!(
        validate(dataflow(&[4], &[9], &[10])),
        Some(DataflowCreationError::CollectionMissing(9))
    );
    assert_eq!(validate(dataflow(&[4], &[], &[10])), None);
}

#[test]
fn an_output_may_take_a_name_that_a_lingering_reader_still_mentions() {
    let mut instance = instance(&[1]);
    let storage = storage(&[(3, 0)]);
    instance
        .activate(&storage)
        .create_dataflows(
            vec![dataflow(&[3], &[], &[10]), dataflow(&[], &[10], &[11])],
            &vec![&storage, &storage],
        )
        .unwrap();
    instance.activate(&storage).drop_collections(vec![10, 11]).unwrap();
    let done = ComputeResponse::FrontierUppers(vec![(10, Antichain::new())]);
    instance.activate(&storage).handle_response(done, 1);
    assert!(instance.collection(10).is_err());
    assert_eq!(since(&instance, 11), Antichain::new());
    instance.take_actions();
    instance
        .activate(&storage)
        .create_dataflows(vec![dataflow(&[3], &[], &[10])], &vec![&storage])
        .unwrap();
    assert_eq!(since(&instance, 11), Antichain::new());
    assert!(!allows_compaction(&instance.take_actions()));
    instance
        .activate(&storage)
        .set_read_policy(vec![(10, ReadPolicy::ValidFrom(Antichain::from_elem(8)))])
        .unwrap();
    assert_eq!(since(&instance, 10), Antichain::from_elem(8));
}
