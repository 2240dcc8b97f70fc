use ormdb::catalog::{EntityDef, FieldDef, FieldType, ScalarType, SchemaBundle};
use ormdb::query::executor::QueryExecutor;
use ormdb::query::planner::GraphQuery;
use ormdb::raft::apply::{apply_request_at, make_apply_fn};
use ormdb::raft::cluster::LeaderTracker;
use ormdb::raft::config::{build_cluster_config, RaftConfig};
use ormdb::raft::error::{raft_error_message, RaftError};
use ormdb::raft::state_machine::{response_to, OrmdbStateMachine};
use ormdb::raft::stored::{decode_log_id, decode_membership, encode_log_id, encode_membership};
use ormdb::raft::types::{
    ClientRequest, ClientResponse, Entry, EntryPayload, LogId, Membership, StoredMembership,
};
use ormdb::server::database::Database;
use ormdb::server::mutation::{FieldValue, Mutation, MutationBatch};
use ormdb::storage::engine::{StorageConfig, StorageEngine};
use ormdb::value::Value;

fn text(s: &str) -> Value {
    Value::String(s.to_string())
}

fn user_schema() -> SchemaBundle {
    SchemaBundle::new(1).with_entity(
        EntityDef::new("User", "id")
            .with_field(FieldDef::new("id", FieldType::Scalar(ScalarType::Uuid)))
            .with_field(FieldDef::new("name", FieldType::Scalar(ScalarType::String))),
    )
}

fn create_test_storage() -> StorageEngine {
    StorageEngine::open(StorageConfig::temporary()).unwrap()
}

fn log_id(term: u64, index: u64) -> LogId {
    LogId { term, node_id: 1, index }
}

fn create_test_entry(index: u64, term: u64, request: ClientRequest) -> Entry {
    Entry { log_id: log_id(term, index), payload: EntryPayload::Normal(request) }
}

#[test]
fn raft_apply_fn_applies_mutation_to_storage() {
    let dir = tempfile::tempdir().unwrap();
    let mut database = Database::open(dir.path().to_str().unwrap()).unwrap();
    database.catalog.apply_schema(user_schema());

    let mut apply_fn = make_apply_fn(database);

    let req = ClientRequest::Mutate(Mutation::insert(
        "User",
        vec![FieldValue::new("name", text("Alice"))],
    ));
    match apply_fn.apply(&req, 1).expect("apply_fn should succeed") {
        ClientResponse::MutationResult(r) => {
            assert_eq!(r.affected, 1, "one row inserted");
            assert!(!r.inserted_ids.is_empty(), "an id was assigned");
        }
        other => panic!("expected MutationResult, got {other:?}"),
    }

    let database = &mut apply_fn.database;
    let mut executor = QueryExecutor::new(&database.catalog);
    let result = executor.execute(&mut database.storage, &GraphQuery::new("User")).unwrap();
    assert_eq!(result.entities[0].len(), 1, "the inserted user is readable");
    match &result.entities[0].column("name").unwrap().values[0] {
        Value::String(s) => assert_eq!(s, "Alice"),
        other => panic!("unexpected name value: {other:?}"),
    }
}

#[test]
fn raft_apply_fn_handles_noop() {
    let dir = tempfile::tempdir().unwrap();
    let database = Database::open(dir.path().to_str().unwrap()).unwrap();
    let mut apply_fn = make_apply_fn(database);

    assert!(matches!(
        apply_fn.apply(&ClientRequest::Noop, 1).unwrap(),
        ClientResponse::NoopResult
    ));
}

#[test]
fn test_state_machine_apply_noop() {
    let mut storage = create_test_storage();
    let mut sm = OrmdbStateMachine::new(&storage).unwrap();

    let entry = Entry { log_id: log_id(1, 1), payload: EntryPayload::Blank };

    let responses = sm.apply(&mut storage, &vec![entry]).unwrap();
    assert_eq!(responses.len(), 1);
    assert!(matches!(responses[0], ClientResponse::NoopResult));

    let (last_applied, _) = sm.applied_state();
    assert_eq!(last_applied.unwrap().index, 1);
}

#[test]
fn test_state_machine_membership() {
    let mut storage = create_test_storage();
    let mut sm = OrmdbStateMachine::new(&storage).unwrap();

    let nodes = vec![(1, String::new()), (2, String::new()), (3, String::new())];
    let membership = Membership { configs: vec![vec![1, 2, 3]], nodes: nodes.clone() };
    let entry = Entry { log_id: log_id(1, 1), payload: EntryPayload::Membership(membership) };

    sm.apply(&mut storage, &vec![entry]).unwrap();

    let (_, stored_membership) = sm.applied_state();
    assert_eq!(stored_membership.membership.configs, vec![vec![1, 2, 3]]);
    assert_eq!(stored_membership.membership.nodes, nodes);
}

#[test]
fn test_state_machine_with_apply_fn() {
    let mut storage = create_test_storage();
    let dir = tempfile::tempdir().unwrap();
    let database = Database::open(dir.path().to_str().unwrap()).unwrap();
    let mut sm =
        OrmdbStateMachine::new(&storage).unwrap().with_apply_fn(make_apply_fn(database));

    let entry = create_test_entry(1, 1, ClientRequest::Noop);
    let responses = sm.apply(&mut storage, &vec![entry]).unwrap();

    assert!(matches!(responses[0], ClientResponse::NoopResult));
}

#[test]
fn test_state_machine_persistence() {
    let temp_dir = tempfile::tempdir().unwrap();
    let path = temp_dir.path().to_str().unwrap();

    {
        let mut storage = StorageEngine::open(StorageConfig::new(path)).unwrap();
        let mut sm = OrmdbStateMachine::new(&storage).unwrap();
        let entry = Entry { log_id: log_id(1, 5), payload: EntryPayload::Blank };
        sm.apply(&mut storage, &vec![entry]).unwrap();
    }

    {
        let mut storage = StorageEngine::open(StorageConfig::new(path)).unwrap();
        let sm = OrmdbStateMachine::new(&storage).unwrap();
        let (last_applied, _) = sm.applied_state();
        assert_eq!(last_applied.unwrap().index, 5);
    }
}

#[test]
fn mutations_need_something_that_makes_them() {
    let mut storage = create_test_storage();
    let mut sm = OrmdbStateMachine::new(&storage).unwrap();
    let request = ClientRequest::Mutate(Mutation::delete("User", [1u8; 16]));
    let responses = sm.apply(&mut storage, &vec![create_test_entry(3, 1, request)]).unwrap();
    assert!(matches!(
        &responses[0],
        ClientResponse::Error(s) if s == "State machine not configured with mutation executor"
    ));
    assert_eq!(sm.last_applied(), Some(log_id(1, 3)));
}

#[test]
fn the_log_is_applied_in_order() {
    let mut storage = create_test_storage();
    let dir = tempfile::tempdir().unwrap();
    let mut database = Database::open(dir.path().to_str().unwrap()).unwrap();
    database.catalog.apply_schema(user_schema());
    let mut sm =
        OrmdbStateMachine::new(&storage).unwrap().with_apply_fn(make_apply_fn(database));
    let id = [4u8; 16];
    let insert = Mutation::insert(
        "User",
        vec![FieldValue::new("id", Value::Uuid(id)), FieldValue::new("name", text("Alice"))],
    );
    let update = Mutation::update("User", id, vec![FieldValue::new("name", text("Bob"))]);
    let responses = sm
        .apply(&mut storage, &vec![
            create_test_entry(7, 2, ClientRequest::Mutate(insert)),
            create_test_entry(
                8,
                2,
                ClientRequest::MutateBatch(MutationBatch::from_mutations(vec![update])),
            ),
            create_test_entry(
                9,
                2,
                ClientRequest::Mutate(Mutation::update("User", [9u8; 16], vec![])),
            ),
        ])
        .unwrap();
    assert!(matches!(
        &responses[0],
        ClientResponse::MutationResult(r) if r.inserted_ids == vec![id]
    ));
    assert!(matches!(&responses[1], ClientResponse::MutationResult(r) if r.affected == 1));
    assert!(matches!(&responses[2], ClientResponse::Error(_)));
    let db = &sm.apply_fn.as_ref().unwrap().database;
    assert_eq!(db.storage.get_latest(&id).unwrap().unwrap().0, 8);
    assert_eq!(db.storage.read_watermark(), 8);
    assert_eq!(sm.last_applied(), Some(log_id(2, 9)));
}

#[test]
fn snapshots_are_taken_over_and_kept() {
    let temp_dir = tempfile::tempdir().unwrap();
    let path = temp_dir.path().to_str().unwrap();
    let members = || StoredMembership {
        log_id: Some(log_id(3, 11)),
        membership: Membership {
            configs: vec![vec![1, 2], vec![2, 3]],
            nodes: vec![
                (1, "a:1".to_string()),
                (2, "b:2".to_string()),
                (3, "c:3".to_string()),
                (4, "d:4".to_string()),
            ],
        },
    };
    {
        let mut storage = StorageEngine::open(StorageConfig::new(path)).unwrap();
        let mut sm = OrmdbStateMachine::new(&storage).unwrap();
        assert!(sm.last_applied().is_none());
        assert!(sm.membership().membership.nodes.is_empty());
        sm.install_snapshot(&mut storage, Some(log_id(3, 20)), members()).unwrap();
        assert_eq!(sm.last_applied(), Some(log_id(3, 20)));
    }
    {
        let mut storage = StorageEngine::open(StorageConfig::new(path)).unwrap();
        let sm = OrmdbStateMachine::new(&storage).unwrap();
        assert_eq!(sm.last_applied(), Some(log_id(3, 20)));
        let kept = sm.membership();
        assert_eq!(kept.log_id, members().log_id);
        assert_eq!(kept.membership.configs, members().membership.configs);
        assert_eq!(kept.membership.nodes, members().membership.nodes);
    }
}

#[test]
fn places_and_members_are_json() {
    let json = encode_log_id(LogId { term: 5, node_id: 10, index: 7 }).unwrap();
    assert_eq!(
        String::from_utf8(json.clone()).unwrap(),
        "{\"leader_id\":{\"term\":5,\"node_id\":10},\"index\":7}"
    );
    let place = decode_log_id(&json).unwrap();
    assert_eq!(place, LogId { term: 5, node_id: 10, index: 7 });
    assert!(matches!(decode_log_id(b"nonsense"), Err(RaftError::Storage(_))));
    let m = StoredMembership {
        log_id: None,
        membership: Membership { configs: vec![vec![2]], nodes: vec![(2, "b".to_string())] },
    };
    let json = encode_membership(&m).unwrap();
    let read = decode_membership(&json).unwrap();
    assert!(read.log_id.is_none());
    assert_eq!(read.membership.configs, vec![vec![2]]);
    assert_eq!(read.membership.nodes, vec![(2, "b".to_string())]);
    assert!(matches!(decode_membership(b"{}"), Err(RaftError::Storage(_))));
}

#[test]
fn nodes_come_to_the_same_state() {
    let open = || {
        let dir = tempfile::tempdir().unwrap();
        let mut db = Database::open(dir.path().to_str().unwrap()).unwrap();
        db.catalog.apply_schema(user_schema());
        (dir, db)
    };
    let (_a, mut one) = open();
    let (_b, mut two) = open();
    let id = [6u8; 16];
    let request = ClientRequest::Mutate(Mutation::insert(
        "User",
        vec![FieldValue::new("name", text("Alice")), FieldValue::new("id", Value::Uuid(id))],
    ));
    apply_request_at(&mut one, &request, 30, &vec![[1u8; 16]]).unwrap();
    apply_request_at(&mut two, &request, 30, &vec![[2u8; 16]]).unwrap();
    let (ts_one, rec_one) = one.storage.get_latest(&id).unwrap().unwrap();
    let (ts_two, rec_two) = two.storage.get_latest(&id).unwrap().unwrap();
    assert_eq!(ts_one, 30);
    assert_eq!(ts_two, 30);
    assert_eq!(rec_one.data, rec_two.data);
}

#[test]
fn leader_is_the_current_one() {
    let tracker = LeaderTracker::new(1);
    let nodes = vec![(1, "a:1".to_string()), (2, "b:2".to_string())];
    assert_eq!(tracker.node_id(), 1);
    assert!(tracker.is_leader(Some(1)));
    assert!(!tracker.is_leader(Some(2)));
    assert!(!tracker.is_leader(None));
    assert_eq!(tracker.get_leader(None, &nodes), None);
    assert_eq!(tracker.get_leader(Some(9), &nodes), None);
    assert_eq!(tracker.get_leader(Some(2), &nodes), Some((2, "b:2".to_string())));
    assert_eq!(tracker.get_leader(Some(1), &nodes), Some((1, "a:1".to_string())));
    assert_eq!(tracker.get_leader(None, &nodes), None);
}

#[test]
fn errors_of_replication_have_texts() {
    let s = || "x".to_string();
    let expected = [
        (RaftError::Initialization(s()), "Raft initialization failed: x"),
        (RaftError::Storage(s()), "Storage error: x"),
        (RaftError::Network(s()), "Network error: x"),
        (RaftError::Serialization(s()), "Serialization error: x"),
        (RaftError::Write(s()), "Write error: x"),
        (RaftError::Read(s()), "Linearizable read error: x"),
        (RaftError::MembershipChange(s()), "Membership change error: x"),
        (RaftError::NoLeader, "No leader available"),
        (RaftError::Snapshot(s()), "Snapshot error: x"),
        (RaftError::Shutdown(s()), "Shutdown error: x"),
        (RaftError::Timeout(s()), "Operation timed out: x"),
        (RaftError::Internal(s()), "Internal error: x"),
        (
            RaftError::NotLeader { leader_id: Some(3), leader_addr: Some("a\"b".to_string()) },
            "Not the leader, current leader is node Some(3) at Some(\"a\\\"b\")",
        ),
        (
            RaftError::NotLeader { leader_id: None, leader_addr: None },
            "Not the leader, current leader is node None at None",
        ),
    ];
    for (e, text) in expected {
        assert_eq!(raft_error_message(&e), text);
    }
}

fn create_test_config(node_id: u64, port: u16) -> RaftConfig {
    RaftConfig {
        node_id,
        raft_listen_addr: format!("127.0.0.1:{}", port),
        raft_advertise_addr: format!("127.0.0.1:{}", port),
        heartbeat_interval_ms: 100,
        election_timeout_min_ms: 200,
        election_timeout_max_ms: 400,
        snapshot_threshold: 1000,
        max_entries_per_append: 100,
        data_dir: "/tmp/ormdb-test".to_string(),
    }
}

#[test]
fn settings_of_a_node_are_checked() {
    let made = build_cluster_config(&create_test_config(1, 9000)).unwrap();
    assert_eq!(made.cluster_name, "ormdb-cluster");
    assert_eq!(made.heartbeat_interval, 100);
    assert_eq!(made.election_timeout_min, 200);
    assert_eq!(made.election_timeout_max, 400);
    assert_eq!(made.max_payload_entries, 100);
    let refused = |config: RaftConfig| match build_cluster_config(&config) {
        Err(RaftError::Initialization(text)) => text,
        other => panic!("expected a refusal, got {:?}", other.is_ok()),
    };
    assert_eq!(
        refused(RaftConfig { election_timeout_max_ms: 200, ..create_test_config(1, 1) }),
        "election timeout: min(200) must be < max(200)"
    );
    assert_eq!(
        refused(RaftConfig { heartbeat_interval_ms: 200, ..create_test_config(1, 1) }),
        "election_timeout_min(200) must be > heartbeat_interval(200)"
    );
    assert_eq!(
        refused(RaftConfig { max_entries_per_append: 0, ..create_test_config(1, 1) }),
        "max_payload_entries must be > 0"
    );
}

#[test]
fn state_machines_go_on_where_the_last_has_come() {
    let mut storage = create_test_storage();
    let mut sm = OrmdbStateMachine::new(&storage).unwrap();
    let blank = |index| Entry { log_id: log_id(1, index), payload: EntryPayload::Blank };
    sm.apply(&mut storage, &vec![blank(4)]).unwrap();
    let mut second = OrmdbStateMachine::new(&storage).unwrap();
    assert_eq!(second.last_applied(), Some(log_id(1, 4)));
    second.apply(&mut storage, &vec![blank(5)]).unwrap();
    assert_eq!(sm.last_applied(), Some(log_id(1, 4)));
    let third = OrmdbStateMachine::new(&storage).unwrap();
    assert_eq!(third.last_applied(), Some(log_id(1, 5)));
}

#[test]
fn the_database_keeps_how_far_the_log_has_come() {
    let dir = tempfile::tempdir().unwrap();
    let path = dir.path().to_str().unwrap();
    {
        let mut database = Database::open(path).unwrap();
        database.catalog.apply_schema(user_schema());
        let mut sm = OrmdbStateMachine::new(&database.storage)
            .unwrap()
            .with_apply_fn(make_apply_fn(database));
        let insert =
            Mutation::insert("User", vec![FieldValue::new("name", text("Alice"))]);
        let responses =
            sm.apply_and_keep(&vec![create_test_entry(7, 2, ClientRequest::Mutate(insert))]).unwrap();
        assert!(matches!(&responses[0], ClientResponse::MutationResult(r) if r.affected == 1));
    }
    {
        let database = Database::open(path).unwrap();
        let mut sm = OrmdbStateMachine::new(&database.storage).unwrap();
        assert_eq!(sm.last_applied(), Some(log_id(2, 7)));
        // Without a database there is nothing to keep it in.
        sm.apply_and_keep(&vec![create_test_entry(8, 2, ClientRequest::Noop)]).unwrap();
        assert_eq!(sm.last_applied(), Some(log_id(2, 8)));
        let again = OrmdbStateMachine::new(&database.storage).unwrap();
        assert_eq!(again.last_applied(), Some(log_id(2, 7)));
        let mut sm = again.with_apply_fn(make_apply_fn(database));
        let members = StoredMembership {
            log_id: Some(log_id(3, 9)),
            membership: Membership { configs: vec![vec![1]], nodes: vec![(1, "a:1".to_string())] },
        };
        sm.install_and_keep(Some(log_id(3, 9)), members).unwrap();
    }
    let database = Database::open(path).unwrap();
    let sm = OrmdbStateMachine::new(&database.storage).unwrap();
    assert_eq!(sm.last_applied(), Some(log_id(3, 9)));
    assert_eq!(sm.membership().membership.configs, vec![vec![1]]);
}

#[test]
fn applying_nothing_leaves_the_database() {
    let dir = tempfile::tempdir().unwrap();
    let mut database = Database::open(dir.path().to_str().unwrap()).unwrap();
    database.catalog.apply_schema(user_schema());
    let mut apply_fn = make_apply_fn(database);
    let empty = ClientRequest::MutateBatch(MutationBatch::from_mutations(vec![]));
    assert!(matches!(apply_fn.apply(&ClientRequest::Noop, 5), Ok(ClientResponse::NoopResult)));
    assert!(matches!(
        apply_fn.apply(&empty, 6),
        Ok(ClientResponse::MutationResult(r)) if r.affected == 0
    ));
    assert!(apply_fn.database.storage.scan_entity_type_batch("User").unwrap().is_empty());
    assert_eq!(apply_fn.database.changelog.current_lsn(), 0);
}

#[test]
fn answers_follow_from_what_was_made() {
    let delete = ClientRequest::Mutate(Mutation::delete("User", [1u8; 16]));
    assert!(matches!(response_to(&ClientRequest::Noop, None), ClientResponse::NoopResult));
    assert!(matches!(
        response_to(&delete, Some(Ok(ClientResponse::NoopResult))),
        ClientResponse::NoopResult
    ));
    assert!(matches!(
        response_to(&delete, Some(Err("why".to_string()))),
        ClientResponse::Error(s) if s == "why"
    ));
    assert!(matches!(response_to(&delete, None), ClientResponse::Error(_)));
}
