use compute_controller::action::Action;
use compute_controller::command::{
    ComputeCommand, ComputeReplicaLocation, ComputeSinkDesc, DataflowDescription, LoggingConfig,
};
use compute_controller::error::PeekError;
use compute_controller::instance::Instance;
use compute_controller::policy::{LagBy, ReadPolicy};
use compute_controller::response::{ComputeControllerResponse, ComputeResponse, PeekResponse};
use compute_controller::storage::StorageController;
use std::collections::{BTreeMap, BTreeSet};
use std::sync::Arc;
use timely::progress::Antichain;

type TestInstance = Instance<u32, LagBy>;

fn storage() -> StorageController<u32> {
    StorageController { collections: BTreeMap::new() }
}

fn logging() -> LoggingConfig<u32> {
    LoggingConfig {
        settings: Arc::new(0),
        index_logs: BTreeMap::new(),
        sink_logs: BTreeMap::new(),
    }
}

fn index_dataflow(id: u64, reads: &[u64], as_of: u64) -> DataflowDescription<u32, ()> {
    let sink_exports: BTreeMap<u64, ComputeSinkDesc<u32, ()>> = BTreeMap::new();
    DataflowDescription {
        source_imports: BTreeMap::new(),
        index_imports: reads.iter().map(|id| (*id, 0)).collect(),
        objects_to_build: vec![],
        index_exports: BTreeMap::from([(id, 0)]),
        sink_exports,
        as_of: Some(Antichain::from_elem(as_of)),
        until: Antichain::new(),
        debug_name: "index".to_string(),
    }
}

/// An instance with the replicas 1 and 2 and the index 10, readable from `as_of` on.
fn instance(as_of: u64) -> TestInstance {
    let storage = storage();
    let mut instance: TestInstance = Instance::new(1, BTreeMap::new(), 1000, 7);
    for id in [1, 2] {
        instance
            .activate(&storage)
            .add_replica(id, ComputeReplicaLocation::Unmanaged(0), logging())
            .unwrap();
    }
    instance
        .activate(&storage)
        .create_dataflows(vec![index_dataflow(10, &[], as_of)], &vec![&storage])
        .unwrap();
    instance.take_actions();
    instance
}

fn peek(instance: &mut TestInstance, uuid: u128, time: u64, target: Option<u64>) {
    instance
        .activate(&storage())
        .peek(10, Some(vec![5]), uuid, time, 6, 7, target, Some(Arc::new(uuid as u32)))
        .unwrap();
}

fn since(instance: &TestInstance, id: u64) -> Antichain<u64> {
    instance.collection(id).unwrap().read_frontier()
}

fn answer(instance: &mut TestInstance, uuid: u128, replica: u64, rows: u32) -> Option<u32> {
    let response = ComputeResponse::PeekResponse(uuid, PeekResponse::Rows(rows), None);
    match instance.activate(&storage()).handle_response(response, replica) {
        Some(ComputeControllerResponse::PeekResponse(id, PeekResponse::Rows(rows), None)) => {
            assert_eq!(id, uuid);
            Some(rows)
        }
        Some(other) => panic!("unexpected response {:?}", other),
        None => None,
    }
}

#[test]
fn a_peek_at_an_unknown_collection_is_refused() {
    let mut instance = instance(5);
    let result = instance.activate(&storage()).peek(11, None, 1, 5, 0, 0, None, None);
    assert_eq!(result, Err(PeekError::CollectionMissing(11)));
    assert!(instance.take_actions().is_empty());
}

#[test]
fn a_peek_before_the_read_frontier_is_refused() {
    let mut instance = instance(5);
    let result = instance.activate(&storage()).peek(10, None, 1, 4, 0, 0, None, None);
    assert_eq!(result, Err(PeekError::SinceViolation(10)));
    assert!(instance.take_actions().is_empty());
    assert_eq!(instance.activate(&storage()).peek(10, None, 1, 5, 0, 0, None, None), Ok(()));
}

#[test]
fn a_peek_is_sent_to_the_replicas() {
    let mut instance = instance(5);
    peek(&mut instance, 77, 6, Some(2));
    match &instance.take_actions()[..] {
        [Action::Send { command, replicas }] => {
            assert_eq!(*replicas, BTreeMap::from([(1, 1), (2, 1)]));
            match &**command {
                ComputeCommand::Peek(peek) => {
                    assert_eq!(peek.id, 10);
                    assert_eq!(peek.literal_constraints, Some(vec![5]));
                    assert_eq!(peek.uuid, 77);
                    assert_eq!(peek.timestamp, 6);
                    assert_eq!(peek.finishing, 6);
                    assert_eq!(peek.map_filter_project, 7);
                    assert_eq!(peek.otel_ctx.as_deref(), Some(&77));
                }
                other => panic!("unexpected command {:?}", other),
            }
        }
        other => panic!("unexpected actions {:?}", other),
    }
}

#[test]
fn the_first_answer_is_passed_on_and_no_other() {
    let mut instance = instance(5);
    peek(&mut instance, 77, 6, None);
    assert_eq!(answer(&mut instance, 77, 2, 100), Some(100));
    assert_eq!(answer(&mut instance, 77, 1, 200), None);
    assert_eq!(answer(&mut instance, 77, 2, 300), None);
    assert_eq!(answer(&mut instance, 78, 2, 300), None);
}

#[test]
fn only_the_target_answers_a_targeted_peek() {
    let mut instance = instance(5);
    peek(&mut instance, 77, 6, Some(2));
    assert_eq!(answer(&mut instance, 77, 1, 100), None);
    assert_eq!(answer(&mut instance, 77, 2, 200), Some(200));
    assert_eq!(answer(&mut instance, 77, 2, 300), None);
}

#[test]
fn the_context_of_the_answer_is_passed_on() {
    let mut instance = instance(5);
    peek(&mut instance, 77, 6, None);
    let response =
        ComputeResponse::PeekResponse(77, PeekResponse::Error("no".to_string()), Some(Arc::new(9)));
    match instance.activate(&storage()).handle_response(response, 1) {
        Some(ComputeControllerResponse::PeekResponse(77, PeekResponse::Error(text), context)) => {
            assert_eq!(text, "no");
            assert_eq!(context.as_deref(), Some(&9));
        }
        other => panic!("unexpected response {:?}", other),
    }
}

#[test]
fn a_pending_peek_holds_compaction_back() {
    let mut instance = instance(5);
    peek(&mut instance, 77, 6, None);
    peek(&mut instance, 78, 8, None);
    instance
        .activate(&storage())
        .set_read_policy(vec![(10, ReadPolicy::ValidFrom(Antichain::from_elem(20)))])
        .unwrap();
    assert_eq!(since(&instance, 10), Antichain::from_elem(6));
    assert_eq!(answer(&mut instance, 77, 1, 0), Some(0));
    assert_eq!(since(&instance, 10), Antichain::from_elem(8));
    assert_eq!(answer(&mut instance, 78, 1, 0), Some(0));
    assert_eq!(since(&instance, 10), Antichain::from_elem(20));
}

#[test]
fn peeks_at_one_collection_all_let_go_of_it() {
    let mut instance = instance(5);
    peek(&mut instance, 77, 6, None);
    peek(&mut instance, 78, 6, None);
    peek(&mut instance, 79, 7, None);
    instance
        .activate(&storage())
        .set_read_policy(vec![(10, ReadPolicy::ValidFrom(Antichain::from_elem(20)))])
        .unwrap();
    instance.take_actions();
    instance.activate(&storage()).cancel_peeks(BTreeSet::from([77, 78, 79]));
    assert_eq!(since(&instance, 10), Antichain::from_elem(20));
    match &instance.take_actions()[..] {
        [Action::Send { command: compaction, .. }, Action::Send { command: cancel, .. }] => {
            match &**compaction {
                ComputeCommand::AllowCompaction(frontiers) => {
                    assert_eq!(*frontiers, vec![(10, Antichain::from_elem(20))])
                }
                other => panic!("unexpected command {:?}", other),
            }
            match &**cancel {
                ComputeCommand::CancelPeeks { uuids } => {
                    assert_eq!(*uuids, BTreeSet::from([77, 78, 79]))
                }
                other => panic!("unexpected command {:?}", other),
            }
        }
        other => panic!("unexpected actions {:?}", other),
    }
}

#[test]
fn canceled_peeks_are_answered_once_as_canceled() {
    let mut instance = instance(5);
    peek(&mut instance, 77, 6, None);
    peek(&mut instance, 78, 6, None);
    instance.activate(&storage()).cancel_peeks(BTreeSet::from([77, 5]));
    match instance.next_response() {
        Some(ComputeControllerResponse::PeekResponse(5, PeekResponse::Canceled, context)) => {
            assert!(context.is_none())
        }
        other => panic!("unexpected response {:?}", other),
    }
    match instance.next_response() {
        Some(ComputeControllerResponse::PeekResponse(77, PeekResponse::Canceled, context)) => {
            assert_eq!(context.as_deref(), Some(&77))
        }
        other => panic!("unexpected response {:?}", other),
    }
    assert!(instance.next_response().is_none());
    assert_eq!(answer(&mut instance, 77, 1, 0), None);
    assert_eq!(answer(&mut instance, 78, 1, 4), Some(4));
}

#[test]
fn a_peek_keeps_its_collection_alive() {
    let mut instance = instance(5);
    peek(&mut instance, 77, 6, None);
    instance.activate(&storage()).drop_collections(vec![10]).unwrap();
    for replica in [1, 2] {
        let done = ComputeResponse::FrontierUppers(vec![(10, Antichain::new())]);
        instance.activate(&storage()).handle_response(done, replica);
    }
    assert_eq!(since(&instance, 10), Antichain::from_elem(6));
    assert_eq!(answer(&mut instance, 77, 1, 0), Some(0));
    assert!(instance.collection(10).is_err());
}

#[test]
fn a_peek_holds_what_its_collection_reads() {
    let mut instance = instance(5);
    let storage = storage();
    instance
        .activate(&storage)
        .create_dataflows(vec![index_dataflow(11, &[10], 6)], &vec![&storage])
        .unwrap();
    let result = instance.activate(&storage).peek(11, None, 77, 9, 0, 0, None, None);
    assert_eq!(result, Ok(()));
    for id in [10, 11] {
        instance
            .activate(&storage)
            .set_read_policy(vec![(id, ReadPolicy::ValidFrom(Antichain::from_elem(30)))])
            .unwrap();
    }
    assert_eq!(since(&instance, 11), Antichain::from_elem(9));
    assert_eq!(since(&instance, 10), Antichain::from_elem(9));
    assert_eq!(answer(&mut instance, 77, 1, 0), Some(0));
    assert_eq!(since(&instance, 11), Antichain::from_elem(30));
    assert_eq!(since(&instance, 10), Antichain::from_elem(30));
}

#[test]
fn a_peek_and_its_answer_leave_nothing() {
    let mut instance = instance(5);
    let storage = storage();
    instance
        .activate(&storage)
        .create_dataflows(vec![index_dataflow(11, &[10], 6)], &vec![&storage])
        .unwrap();
    instance.take_actions();
    let result = instance.activate(&storage).peek(11, None, 77, 9, 0, 0, Some(2), None);
    assert_eq!(result, Ok(()));
    assert_eq!(answer(&mut instance, 77, 2, 4), Some(4));
    for action in instance.take_actions() {
        if let Action::Send { command, .. } = action {
            assert!(!matches!(*command, ComputeCommand::AllowCompaction(_)));
        }
    }
    assert_eq!(since(&instance, 10), Antichain::from_elem(5));
    assert_eq!(since(&instance, 11), Antichain::from_elem(6));
    for id in [10, 11] {
        instance
            .activate(&storage)
            .set_read_policy(vec![(id, ReadPolicy::ValidFrom(Antichain::from_elem(30)))])
            .unwrap();
    }
    assert_eq!(since(&instance, 11), Antichain::from_elem(30));
    assert_eq!(since(&instance, 10), Antichain::from_elem(30));
}

#[test]
fn a_pending_peek_is_told_to_a_replica_that_is_started_again() {
    let mut instance = instance(5);
    let storage = storage();
    peek(&mut instance, 77, 9, None);
    instance
        .activate(&storage)
        .create_dataflows(vec![index_dataflow(11, &[10], 6)], &vec![&storage])
        .unwrap();
    instance.take_actions();
    instance.send_failed(1, 1);
    instance.activate(&storage).rehydrate_failed_replicas();
    let told: Vec<_> = instance
        .take_actions()
        .into_iter()
        .filter_map(|action| match action {
            Action::SpawnReplica { id, commands, .. } => Some((id, commands)),
            _ => None,
        })
        .collect();
    assert_eq!(told.len(), 1);
    assert_eq!(told[0].0, 1);
    assert!(told[0].1.iter().any(|command| match &**command {
        ComputeCommand::Peek(peek) => peek.uuid == 77 && peek.timestamp == 9,
        _ => false,
    }));
}
