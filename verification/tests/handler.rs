use ormdb::catalog::{EntityDef, FieldDef, FieldType, ScalarType, SchemaBundle};
use ormdb::query::ast::FilterExpr;
use ormdb::query::planner::{GraphQuery, RelationInclude};
use ormdb::query::rows::{FieldMask, MaskRule};
use ormdb::raft::types::{ClientRequest, ClientResponse};
use ormdb::security::{ApiKey, Authenticator, RlsPolicy, SecurityError};
use ormdb::server::consistency::ReadConsistency;
use ormdb::server::database::Database;
use ormdb::server::error::{server_error_message, ServerError};
use ormdb::server::handler::{
    error_response, extract_operation_info, text_holds, AuditEvent, Reply, RequestHandler, Role,
    Step,
};
use ormdb::server::mutation::{FieldValue, Mutation, MutationBatch, MutationResult};
use ormdb::server::protocol::{
    AggregateQuery, ErrorCode, Operation, RegistrySnapshot, Request, Response, ResponsePayload,
    Status, StreamChangesRequest,
};
use ormdb::value::Value;

fn text(s: &str) -> Value {
    Value::String(s.to_string())
}

fn setup_test_db() -> (tempfile::TempDir, Database) {
    let dir = tempfile::tempdir().unwrap();
    let mut db = Database::open(dir.path().to_str().unwrap()).unwrap();
    let schema = SchemaBundle::new(1).with_entity(
        EntityDef::new("User", "id")
            .with_field(FieldDef::new("id", FieldType::Scalar(ScalarType::Uuid)))
            .with_field(FieldDef::new("name", FieldType::Scalar(ScalarType::String)))
            .with_field(FieldDef::new("age", FieldType::Scalar(ScalarType::Int32))),
    );
    db.catalog.apply_schema(schema);
    (dir, db)
}

fn handle(handler: &RequestHandler, db: &mut Database, request: &Request) -> Response {
    handler.handle(db, request).0
}

fn key(key: &str, capabilities: &[&str]) -> ApiKey {
    ApiKey {
        key: key.to_string(),
        capabilities: capabilities.iter().map(|c| c.to_string()).collect(),
    }
}

fn keyed(keys: Vec<ApiKey>) -> RequestHandler {
    RequestHandler::with_authenticator(Authenticator::ApiKeys(keys))
}

#[test]
fn test_ping() {
    let (_dir, mut db) = setup_test_db();
    let handler = RequestHandler::new();

    let request = Request::new(1, 0, Operation::Ping);
    let response = handle(&handler, &mut db, &request);

    assert_eq!(response.id, 1);
    assert!(response.status.is_ok());
    assert!(matches!(response.payload, ResponsePayload::Pong));
}

#[test]
fn test_get_schema() {
    let (_dir, mut db) = setup_test_db();
    let handler = RequestHandler::new();

    let request = Request::new(2, 0, Operation::GetSchema);
    let response = handle(&handler, &mut db, &request);

    assert_eq!(response.id, 2);
    assert!(response.status.is_ok());

    if let ResponsePayload::Schema { version, schema } = &response.payload {
        assert_eq!(*version, 1);
        assert!(schema.is_some());
    } else {
        panic!("Expected Schema payload");
    }
}

#[test]
fn test_query_empty() {
    let (_dir, mut db) = setup_test_db();
    let handler = RequestHandler::new();

    let request = Request::new(3, 1, Operation::Query(GraphQuery::new("User")));
    let response = handle(&handler, &mut db, &request);

    assert_eq!(response.id, 3);
    assert!(response.status.is_ok());

    if let ResponsePayload::Query(result) = &response.payload {
        assert_eq!(result.entities.len(), 1);
        assert!(result.entities[0].is_empty());
    } else {
        panic!("Expected Query payload");
    }
}

#[test]
fn test_mutation_insert() {
    let (_dir, mut db) = setup_test_db();
    let handler = RequestHandler::new();

    let mutation = Mutation::insert(
        "User",
        vec![FieldValue::new("name", text("Alice")), FieldValue::new("age", Value::Int32(30))],
    );
    let request = Request::new(4, 1, Operation::Mutate(mutation));
    let response = handle(&handler, &mut db, &request);

    assert_eq!(response.id, 4);
    assert!(response.status.is_ok());

    if let ResponsePayload::Mutation(result) = &response.payload {
        assert_eq!(result.affected, 1);
        assert_eq!(result.inserted_ids.len(), 1);
    } else {
        panic!("Expected Mutation payload");
    }
}

#[test]
fn test_mutation_batch() {
    let (_dir, mut db) = setup_test_db();
    let handler = RequestHandler::new();

    let batch = MutationBatch::from_mutations(vec![
        Mutation::insert("User", vec![FieldValue::new("name", text("User1"))]),
        Mutation::insert("User", vec![FieldValue::new("name", text("User2"))]),
    ]);
    let request = Request::new(5, 1, Operation::MutateBatch(batch));
    let response = handle(&handler, &mut db, &request);

    assert_eq!(response.id, 5);
    assert!(response.status.is_ok());

    if let ResponsePayload::Mutation(result) = &response.payload {
        assert_eq!(result.affected, 2);
        assert_eq!(result.inserted_ids.len(), 2);
    } else {
        panic!("Expected Mutation payload");
    }
}

#[test]
fn test_schema_mismatch() {
    let (_dir, mut db) = setup_test_db();
    let handler = RequestHandler::new();

    let request = Request::new(6, 99, Operation::Query(GraphQuery::new("User")));
    let response = handle(&handler, &mut db, &request);

    assert_eq!(response.id, 6);
    assert!(response.status.is_error());

    if let Status::Error { code, message } = &response.status {
        assert_eq!(*code, ErrorCode::SchemaMismatch);
        assert!(message.contains("mismatch"));
    } else {
        panic!("Expected error status");
    }
}

#[test]
fn test_insert_and_query() {
    let (_dir, mut db) = setup_test_db();
    let handler = RequestHandler::new();

    let mutation = Mutation::insert(
        "User",
        vec![FieldValue::new("name", text("Bob")), FieldValue::new("age", Value::Int32(25))],
    );
    let insert_request = Request::new(7, 1, Operation::Mutate(mutation));
    let insert_response = handle(&handler, &mut db, &insert_request);
    assert!(insert_response.status.is_ok());

    let query_request = Request::new(8, 1, Operation::Query(GraphQuery::new("User")));
    let query_response = handle(&handler, &mut db, &query_request);

    assert!(query_response.status.is_ok());
    if let ResponsePayload::Query(result) = &query_response.payload {
        assert_eq!(result.entities[0].len(), 1);
    } else {
        panic!("Expected Query payload");
    }
}

#[test]
fn test_authentication_with_api_key() {
    let (_dir, mut db) = setup_test_db();
    let handler = keyed(vec![key("valid-key", &["read:User", "write:User"])]);

    let request = Request::new(1, 1, Operation::Query(GraphQuery::new("User")))
        .with_credentials("valid-key");
    let response = handle(&handler, &mut db, &request);
    assert!(response.status.is_ok());
}

#[test]
fn test_authentication_failure() {
    let (_dir, mut db) = setup_test_db();
    let handler = keyed(vec![key("valid-key", &["read:User"])]);

    let request = Request::new(1, 1, Operation::Query(GraphQuery::new("User")))
        .with_credentials("invalid-key");
    let response = handle(&handler, &mut db, &request);

    assert!(response.status.is_error());
    if let Status::Error { code, .. } = &response.status {
        assert_eq!(*code, ErrorCode::AuthenticationFailed);
    }
}

#[test]
fn test_permission_denied_read() {
    let (_dir, mut db) = setup_test_db();
    let handler = keyed(vec![key("write-only", &["write:User"])]);

    let request = Request::new(1, 1, Operation::Query(GraphQuery::new("User")))
        .with_credentials("write-only");
    let response = handle(&handler, &mut db, &request);

    assert!(response.status.is_error());
    if let Status::Error { code, .. } = &response.status {
        assert_eq!(*code, ErrorCode::PermissionDenied);
    }
}

#[test]
fn test_permission_denied_write() {
    let (_dir, mut db) = setup_test_db();
    let handler = keyed(vec![key("read-only", &["read:User"])]);

    let mutation = Mutation::insert("User", vec![FieldValue::new("name", text("Test"))]);
    let request =
        Request::new(1, 1, Operation::Mutate(mutation)).with_credentials("read-only");
    let response = handle(&handler, &mut db, &request);

    assert!(response.status.is_error());
    if let Status::Error { code, .. } = &response.status {
        assert_eq!(*code, ErrorCode::PermissionDenied);
    }
}

#[test]
fn test_admin_operation_requires_admin() {
    let (_dir, mut db) = setup_test_db();
    let handler = keyed(vec![
        key("normal-user", &["read:*", "write:*"]),
        key("admin-user", &["admin"]),
    ]);

    let request = Request::new(1, 0, Operation::GetMetrics).with_credentials("normal-user");
    let response = handle(&handler, &mut db, &request);
    assert!(response.status.is_error());
    if let Status::Error { code, .. } = &response.status {
        assert_eq!(*code, ErrorCode::PermissionDenied);
    }

    let request = Request::new(2, 0, Operation::GetMetrics).with_credentials("admin-user");
    let response = handle(&handler, &mut db, &request);
    assert!(response.status.is_ok());
}

#[test]
fn test_wildcard_capability() {
    let (_dir, mut db) = setup_test_db();
    let handler = keyed(vec![key("reader", &["read:*"])]);

    let request = Request::new(1, 1, Operation::Query(GraphQuery::new("User")))
        .with_credentials("reader");
    let response = handle(&handler, &mut db, &request);
    assert!(response.status.is_ok());
}

fn told(e: ServerError) -> (ErrorCode, String) {
    match error_response(9, &e).status {
        Status::Error { code, message } => (code, message),
        Status::Success => panic!("an error is no success"),
    }
}

#[test]
fn clients_are_told_what_concerns_them() {
    let s = "detail".to_string();
    assert_eq!(
        told(ServerError::Database("Entity 'X' not found".to_string())),
        (ErrorCode::NotFound, "Entity 'X' not found".to_string())
    );
    assert_eq!(
        told(ServerError::Database(s.clone())),
        (ErrorCode::Internal, "database operation failed".to_string())
    );
    assert_eq!(
        told(ServerError::Protocol(s.clone())),
        (ErrorCode::InvalidRequest, "detail".to_string())
    );
    assert_eq!(
        told(ServerError::Transport(s.clone())),
        (ErrorCode::Internal, "transport error".to_string())
    );
    assert_eq!(
        told(ServerError::Config(s.clone())),
        (ErrorCode::Internal, "server configuration error".to_string())
    );
    assert_eq!(
        told(ServerError::Io(s.clone())),
        (ErrorCode::Internal, "I/O operation failed".to_string())
    );
    assert_eq!(
        told(ServerError::Security(SecurityError::AuthenticationFailed(s.clone()))),
        (ErrorCode::AuthenticationFailed, "authentication failed".to_string())
    );
    assert_eq!(
        told(ServerError::Security(SecurityError::PermissionDenied(s.clone()))),
        (ErrorCode::PermissionDenied, "permission denied: detail".to_string())
    );
    assert_eq!(
        told(ServerError::Security(SecurityError::CapabilityNotGranted(s.clone()))),
        (ErrorCode::PermissionDenied, "capability not granted: detail".to_string())
    );
    assert_eq!(
        told(ServerError::Security(SecurityError::RlsViolation(s.clone()))),
        (ErrorCode::PermissionDenied, "access denied by policy".to_string())
    );
    assert_eq!(
        told(ServerError::Security(SecurityError::FieldAccessDenied {
            entity: "User".to_string(),
            field: "age".to_string(),
        })),
        (ErrorCode::PermissionDenied, "access denied to field: age".to_string())
    );
    assert_eq!(
        told(ServerError::Security(SecurityError::InvalidCapabilityFormat(s.clone()))),
        (ErrorCode::InvalidRequest, "invalid capability format: detail".to_string())
    );
    assert_eq!(
        told(ServerError::Security(SecurityError::BudgetExceeded(s.clone()))),
        (ErrorCode::BudgetExceeded, "budget exceeded: detail".to_string())
    );
    assert_eq!(
        told(ServerError::Security(SecurityError::InvalidContext(s.clone()))),
        (ErrorCode::Internal, "security operation failed".to_string())
    );
    assert_eq!(
        server_error_message(&ServerError::Security(SecurityError::AuditError(s))),
        "security error: audit error: detail"
    );
}

#[test]
fn parts_of_texts_are_found() {
    assert!(text_holds("Entity 'X' not found", "not found"));
    assert!(text_holds("abc", ""));
    assert!(!text_holds("not foun", "not found"));
}

#[test]
fn deep_queries_are_refused() {
    let (_dir, mut db) = setup_test_db();
    let handler = RequestHandler::new();
    let query = GraphQuery::new("User").with_include(RelationInclude::new("a.b.c.d.e.f"));
    let response = handle(&handler, &mut db, &Request::new(1, 1, Operation::Query(query)));
    assert!(matches!(
        response.status,
        Status::Error { code: ErrorCode::BudgetExceeded, .. }
    ));
}

#[test]
fn subscriptions_are_not_available() {
    let (_dir, mut db) = setup_test_db();
    let handler = RequestHandler::new();
    let response = handle(&handler, &mut db, &Request::new(1, 0, Operation::Subscribe));
    match response.status {
        Status::Error { code, message } => {
            assert_eq!(code, ErrorCode::InvalidRequest);
            assert_eq!(message, "pub-sub operations not yet available on this handler");
        }
        Status::Success => panic!("there are no subscriptions"),
    }
}

#[test]
fn schemas_can_be_put_in_force() {
    let (_dir, mut db) = setup_test_db();
    let handler = RequestHandler::new();
    let schema = SchemaBundle::new(2).with_entity(EntityDef::new("Thing", "id"));
    let response = handle(&handler, &mut db, &Request::new(1, 0, Operation::ApplySchema(schema)));
    assert!(matches!(response.payload, ResponsePayload::SchemaApplied { version: 2 }));
    assert_eq!(db.schema_version(), 2);
}

#[test]
fn changes_are_streamed_from_a_place() {
    let (_dir, mut db) = setup_test_db();
    let handler = RequestHandler::new();
    let req = StreamChangesRequest { from_lsn: 4, batch_size: 10, entity_filter: None };
    let response = handle(&handler, &mut db, &Request::new(1, 0, Operation::StreamChanges(req)));
    match response.payload {
        ResponsePayload::StreamChanges { entries, next_lsn, has_more } => {
            assert!(entries.is_empty());
            assert_eq!(next_lsn, 4);
            assert!(!has_more);
        }
        other => panic!("expected changes, got {other:?}"),
    }
}

#[test]
fn aggregates_count_entities() {
    let (_dir, mut db) = setup_test_db();
    let handler = RequestHandler::new();
    for age in [10, 20, 30] {
        let mutation = Mutation::insert(
            "User",
            vec![FieldValue::new("name", text("X")), FieldValue::new("age", Value::Int32(age))],
        );
        assert!(handle(&handler, &mut db, &Request::new(1, 1, Operation::Mutate(mutation)))
            .status
            .is_ok());
    }
    let query = AggregateQuery {
        root_entity: "User".to_string(),
        filter: Some(FilterExpr::gt("age", Value::Int32(15))),
    };
    let response = handle(&handler, &mut db, &Request::new(2, 0, Operation::Aggregate(query)));
    assert!(matches!(response.payload, ResponsePayload::Aggregate { count: 2, .. }));
}

#[test]
fn policies_hide_rows_from_those_who_may_not_do_everything() {
    let (_dir, mut db) = setup_test_db();
    let handler = keyed(vec![
        key("reader", &["read:User"]),
        key("root", &["admin"]),
    ])
    .with_policies(vec![RlsPolicy {
        entity: "User".to_string(),
        filter: FilterExpr::gt("age", Value::Int32(18)),
    }]);
    let insert = |age: i32| {
        Mutation::insert(
            "User",
            vec![FieldValue::new("name", text("X")), FieldValue::new("age", Value::Int32(age))],
        )
    };
    for age in [15, 25] {
        let request =
            Request::new(1, 1, Operation::Mutate(insert(age))).with_credentials("root");
        assert!(handle(&handler, &mut db, &request).status.is_ok());
    }
    let count = |handler: &RequestHandler, db: &mut Database, key: &str| {
        let request = Request::new(2, 1, Operation::Query(GraphQuery::new("User")))
            .with_credentials(key);
        match handle(handler, db, &request).payload {
            ResponsePayload::Query(result) => result.entities[0].len(),
            other => panic!("expected entities, got {other:?}"),
        }
    };
    assert_eq!(count(&handler, &mut db, "reader"), 1);
    assert_eq!(count(&handler, &mut db, "root"), 2);
}

#[test]
fn refusals_are_audited() {
    let (_dir, mut db) = setup_test_db();
    let handler = keyed(vec![key("writer", &["write:User"])]);
    let request = Request::new(1, 1, Operation::Query(GraphQuery::new("User")))
        .with_credentials("writer");
    let (_, events) = handler.handle(&mut db, &request);
    assert_eq!(events.len(), 2);
    assert!(matches!(&events[0], AuditEvent::Authentication { error: None, .. }));
    assert!(matches!(&events[1], AuditEvent::AccessDenied { .. }));
    let request = request.with_credentials("nobody");
    let (_, events) = handler.handle(&mut db, &request);
    assert_eq!(events.len(), 1);
    assert!(matches!(&events[0], AuditEvent::Authentication { error: Some(_), .. }));
}

#[test]
fn followers_refuse_writes_and_leaders_replicate_them() {
    let (_dir, mut db) = setup_test_db();
    let handler = RequestHandler::new();
    let insert = Mutation::insert("User", vec![FieldValue::new("name", text("Alice"))]);
    let request = Request::new(1, 1, Operation::Mutate(insert));
    let fresh = vec![[7u8; 16]];

    let step = handler.step(&mut db, &request, Role::Follower, Reply::Nothing, &fresh);
    assert!(matches!(step, Step::Answer(r, _) if r.status.is_error()));

    let step = handler.step(&mut db, &request, Role::Leader, Reply::Nothing, &fresh);
    match step {
        Step::Write(ClientRequest::Mutate(Mutation::Insert { data, .. })) => {
            assert!(data
                .iter()
                .any(|f| f.field == "id" && matches!(f.value, Value::Uuid(u) if u == [7u8; 16])));
        }
        other => panic!("expected a write, got {other:?}"),
    }

    let written = Reply::Written(Ok(ClientResponse::MutationResult(MutationResult::inserted(
        [7u8; 16],
    ))));
    let step = handler.step(&mut db, &request, Role::Leader, written, &fresh);
    assert!(matches!(
        step,
        Step::Answer(r, _) if matches!(&r.payload, ResponsePayload::Mutation(m) if m.affected == 1)
    ));

    let lost = Reply::Written(Ok(ClientResponse::NoopResult));
    let step = handler.step(&mut db, &request, Role::Leader, lost, &fresh);
    assert!(matches!(step, Step::Answer(r, _) if r.status.is_error()));
    assert!(db.storage.get_latest(&[7u8; 16]).unwrap().is_none());
}

#[test]
fn linearizable_reads_are_confirmed_first() {
    let (_dir, mut db) = setup_test_db();
    let handler = RequestHandler::new().with_read_consistency(ReadConsistency::Linearizable);
    let request = Request::new(1, 1, Operation::Query(GraphQuery::new("User")));
    let none = Vec::new();
    let step = handler.step(&mut db, &request, Role::Leader, Reply::Nothing, &none);
    assert!(matches!(step, Step::Confirm));
    let step = handler.step(&mut db, &request, Role::Leader, Reply::Confirmed(Ok(())), &none);
    assert!(matches!(step, Step::Answer(r, _) if r.status.is_ok()));
    let no = Reply::Confirmed(Err("lost leadership".to_string()));
    let step = handler.step(&mut db, &request, Role::Leader, no, &none);
    assert!(matches!(step, Step::Answer(r, _) if r.status.is_error()));
    let step = handler.step(&mut db, &request, Role::Single, Reply::Nothing, &none);
    assert!(matches!(step, Step::Answer(r, _) if r.status.is_ok()));
}

#[test]
fn read_consistency_is_read_from_text() {
    assert_eq!(ReadConsistency::from_str_or_default("snapshot"), ReadConsistency::Snapshot);
    assert_eq!(
        ReadConsistency::from_str_or_default("linearizable"),
        ReadConsistency::Linearizable
    );
    assert_eq!(
        ReadConsistency::from_str_or_default("whatever"),
        ReadConsistency::ReadCommitted
    );
}

#[test]
fn operations_have_names() {
    let (name, entity) = extract_operation_info(&Operation::Query(GraphQuery::new("User")));
    assert_eq!(name, "query");
    assert_eq!(entity, Some("User".to_string()));
    let (name, entity) = extract_operation_info(&Operation::GetMetrics);
    assert_eq!(name, "get_metrics");
    assert_eq!(entity, None);
}

#[test]
fn masks_hide_fields_from_those_who_may_not_do_everything() {
    let (_dir, mut db) = setup_test_db();
    let handler = keyed(vec![key("reader", &["read:User"]), key("root", &["admin"])]).with_masks(
        vec![FieldMask {
            entity: "User".to_string(),
            field: "name".to_string(),
            rule: MaskRule::Masked(text("***")),
        }],
    );
    let insert = Mutation::insert("User", vec![FieldValue::new("name", text("Ann"))]);
    let request = Request::new(1, 1, Operation::Mutate(insert)).with_credentials("root");
    assert!(handle(&handler, &mut db, &request).status.is_ok());
    let mut name = |key: &str| {
        let request = Request::new(2, 1, Operation::Query(GraphQuery::new("User")))
            .with_credentials(key);
        match handle(&handler, &mut db, &request).payload {
            ResponsePayload::Query(result) => {
                result.entities[0].column("name").unwrap().values[0].copy()
            }
            other => panic!("expected entities, got {other:?}"),
        }
    };
    assert!(name("reader").same(&text("***")));
    assert!(name("root").same(&text("Ann")));
}

#[test]
fn what_is_turned_away_changes_nothing() {
    let (_dir, mut db) = setup_test_db();
    let handler = keyed(vec![key("reader", &["read:User"])]);
    let insert = || Mutation::insert("User", vec![FieldValue::new("name", text("Ann"))]);
    for (version, credentials) in [(1u64, "reader"), (1, "nobody"), (9, "reader")] {
        let request = Request::new(7, version, Operation::Mutate(insert()))
            .with_credentials(credentials);
        let response = handle(&handler, &mut db, &request);
        assert_eq!(response.id, 7);
        assert!(response.status.is_error());
        assert!(matches!(response.payload, ResponsePayload::Empty));
    }
    assert!(db.storage.scan_entity_type_batch("User").unwrap().is_empty());
    assert_eq!(db.changelog.current_lsn(), 0);
}

fn metrics(handler: &RequestHandler, db: &mut Database) -> (u64, u64, u64, Vec<(String, u64)>) {
    let response = handle(handler, db, &Request::new(9, 0, Operation::GetMetrics));
    match response.payload {
        ResponsePayload::Metrics(m) => (
            m.registry.query_count,
            m.registry.avg_query_us,
            m.registry.max_query_us,
            m.queries_by_entity,
        ),
        other => panic!("unexpected payload: {other:?}"),
    }
}

#[test]
fn queries_are_counted_by_entity() {
    let (_dir, mut db) = setup_test_db();
    let mut silent = RequestHandler::new();
    silent.record_query("User", 10);
    assert_eq!(metrics(&silent, &mut db), (0, 0, 0, vec![]));

    let mut handler = RequestHandler::new().with_metrics(RegistrySnapshot::default());
    handler.record_query("User", 10);
    handler.record_query("Post", 40);
    handler.record_query("User", 25);
    handler.record_uptime(60);
    let by_entity = vec![("User".to_string(), 2), ("Post".to_string(), 1)];
    assert_eq!(metrics(&handler, &mut db), (3, 25, 40, by_entity));
}

#[test]
fn entities_are_counted_again_when_it_is_time() {
    let (dir, mut db) = setup_test_db();
    let handler = RequestHandler::new();
    for name in ["Alice", "Bob"] {
        let insert = Mutation::insert("User", vec![FieldValue::new("name", text(name))]);
        let request = Request::new(1, 1, Operation::Mutate(insert));
        assert!(handle(&handler, &mut db, &request).status.is_ok());
    }
    let schema = SchemaBundle::new(1).with_entity(
        EntityDef::new("User", "id")
            .with_field(FieldDef::new("id", FieldType::Scalar(ScalarType::Uuid))),
    );
    db.storage.flush().unwrap();
    drop(db);

    // What was counted is not kept, but it can be counted again.
    let mut db = Database::open(dir.path().to_str().unwrap()).unwrap();
    db.catalog.apply_schema(schema);
    assert_eq!(db.statistics.count("User"), None);
    handler.refresh_statistics(&mut db, &Operation::Ping, 1_000).unwrap();
    assert_eq!(db.statistics.count("User"), None);
    let query = Operation::Query(GraphQuery::new("User"));
    handler.refresh_statistics(&mut db, &query, 1_000).unwrap();
    assert_eq!(db.statistics.count("User"), Some(2));

    db.statistics.increment("User");
    handler.refresh_statistics(&mut db, &query, 60_000_999).unwrap();
    assert_eq!(db.statistics.count("User"), Some(3));
    handler.refresh_statistics(&mut db, &query, 60_001_000).unwrap();
    assert_eq!(db.statistics.count("User"), Some(2));
}

#[test]
fn plans_are_kept_until_the_schema_changes() {
    let (_dir, mut db) = setup_test_db();
    let handler = RequestHandler::new().with_metrics(RegistrySnapshot::default());
    let cache = |db: &mut Database| {
        let response = handle(&handler, db, &Request::new(9, 0, Operation::GetMetrics));
        match response.payload {
            ResponsePayload::Metrics(m) => {
                (m.registry.cache_hits, m.registry.cache_misses, m.registry.cache_size)
            }
            other => panic!("unexpected payload: {other:?}"),
        }
    };
    let older = |age: i32| {
        let query = GraphQuery::new("User").with_filter(FilterExpr::gt("age", Value::Int32(age)));
        Request::new(1, 0, Operation::Query(query))
    };
    assert!(handle(&handler, &mut db, &older(10)).status.is_ok());
    assert!(handle(&handler, &mut db, &older(20)).status.is_ok());
    assert_eq!(cache(&mut db), (1, 1, 1));
    let schema = SchemaBundle::new(2).with_entity(
        EntityDef::new("User", "id")
            .with_field(FieldDef::new("id", FieldType::Scalar(ScalarType::Uuid))),
    );
    let apply = Request::new(2, 0, Operation::ApplySchema(schema));
    assert!(handle(&handler, &mut db, &apply).status.is_ok());
    assert_eq!(cache(&mut db), (1, 1, 0));
    assert!(handle(&handler, &mut db, &older(10)).status.is_ok());
    assert_eq!(cache(&mut db), (1, 2, 1));
}

#[test]
fn identifiers_are_given_out_for_a_step() {
    let (_dir, mut db) = setup_test_db();
    let handler = RequestHandler::new();
    let insert = Mutation::insert("User", vec![FieldValue::new("name", text("Alice"))]);
    let request = Request::new(1, 1, Operation::Mutate(insert));
    let mut sent = Vec::new();
    for n in 1..3 {
        match handler.advance(&mut db, &request, Role::Leader, Reply::Nothing) {
            Step::Write(ClientRequest::Mutate(Mutation::Insert { data, .. })) => {
                match data.iter().find(|f| f.field == "id").map(|f| &f.value) {
                    Some(Value::Uuid(id)) => sent.push(*id),
                    other => panic!("unexpected identifier: {other:?}"),
                }
            }
            _ => panic!("the leader writes to the log"),
        }
        assert_eq!(db.next_id, n);
    }
    assert_ne!(sent[0], sent[1]);
    assert!(db.storage.scan_entity_type_batch("User").unwrap().is_empty());
}

#[test]
fn clients_can_be_recognised_elsewhere() {
    let (_dir, mut db) = setup_test_db();
    let handler = keyed(vec![]);
    let request = Request::new(1, 0, Operation::Query(GraphQuery::new("User")));
    let reader = Ok(vec!["read:*".to_string()]);
    match handler.step_recognised(&mut db, &request, reader, Role::Single, Reply::Nothing, &vec![]) {
        Step::Answer(response, _) => assert!(response.status.is_ok()),
        _ => panic!("a single node answers at once"),
    }
    let stranger = Err(SecurityError::AuthenticationFailed("no such token".to_string()));
    match handler.step_recognised(&mut db, &request, stranger, Role::Single, Reply::Nothing, &vec![])
    {
        Step::Answer(response, _) => assert!(response.status.is_error()),
        _ => panic!("a single node answers at once"),
    }
}
