use ormdb::catalog::{EntityDef, FieldDef, FieldType, ScalarType, SchemaBundle};
use ormdb::codec::decode_entity;
use ormdb::query::executor::QueryExecutor;
use ormdb::query::planner::GraphQuery;
use ormdb::server::changelog::ChangeType;
use ormdb::server::database::Database;
use ormdb::server::error::{server_error_message, ServerError};
use ormdb::server::mutation::{
    ensure_assigned_id, merge_fields, FieldValue, Mutation, MutationBatch, MutationExecutor,
};
use ormdb::value::Value;

fn text(s: &str) -> Value {
    Value::String(s.to_string())
}

fn is_text(v: &Value, text: &str) -> bool {
    matches!(v, Value::String(s) if s == text)
}

fn setup_test_db() -> (tempfile::TempDir, Database) {
    let dir = tempfile::tempdir().unwrap();
    let mut db = Database::open(dir.path().to_str().unwrap()).unwrap();
    let schema = SchemaBundle::new(1).with_entity(
        EntityDef::new("User", "id")
            .with_field(FieldDef::new("id", FieldType::Scalar(ScalarType::Uuid)))
            .with_field(FieldDef::new("name", FieldType::Scalar(ScalarType::String)))
            .with_field(FieldDef::new("age", FieldType::Scalar(ScalarType::Int32))),
    );
    db.catalog.apply_schema(schema);
    (dir, db)
}

#[test]
fn snapshot_read_sees_committed_mutation_via_watermark() {
    let (_dir, mut db) = setup_test_db();
    MutationExecutor::new()
        .execute(&mut db, &Mutation::insert("User", vec![FieldValue::new("name", text("Zoe"))]))
        .unwrap();

    let mut qexec = QueryExecutor::new(&db.catalog);
    let result = qexec.execute_snapshot(&mut db.storage, &GraphQuery::new("User")).unwrap();
    assert_eq!(
        result.entities[0].len(),
        1,
        "snapshot read must observe the committed insert (watermark advanced)"
    );
}

#[test]
fn test_insert() {
    let (_dir, mut db) = setup_test_db();
    let executor = MutationExecutor::new();

    let mutation = Mutation::insert(
        "User",
        vec![FieldValue::new("name", text("Alice")), FieldValue::new("age", Value::Int32(30))],
    );

    let result = executor.execute(&mut db, &mutation).unwrap();
    assert_eq!(result.affected, 1);
    assert_eq!(result.inserted_ids.len(), 1);

    let inserted_id = result.inserted_ids[0];
    let (_, record) = db.storage.get_latest(&inserted_id).unwrap().unwrap();
    let fields = decode_entity(&record.data).unwrap();

    assert!(fields.iter().any(|(n, v)| n == "name" && is_text(v, "Alice")));
    assert!(fields.iter().any(|(n, v)| n == "age" && matches!(v, Value::Int32(30))));
}

#[test]
fn test_update() {
    let (_dir, mut db) = setup_test_db();
    let executor = MutationExecutor::new();

    let insert = Mutation::insert(
        "User",
        vec![FieldValue::new("name", text("Alice")), FieldValue::new("age", Value::Int32(30))],
    );
    let insert_result = executor.execute(&mut db, &insert).unwrap();
    let id = insert_result.inserted_ids[0];

    let update = Mutation::update(
        "User",
        id,
        vec![FieldValue::new("name", text("Alicia")), FieldValue::new("age", Value::Int32(31))],
    );
    let update_result = executor.execute(&mut db, &update).unwrap();
    assert_eq!(update_result.affected, 1);

    let (_, record) = db.storage.get_latest(&id).unwrap().unwrap();
    let fields = decode_entity(&record.data).unwrap();

    assert!(fields.iter().any(|(n, v)| n == "name" && is_text(v, "Alicia")));
    assert!(fields.iter().any(|(n, v)| n == "age" && matches!(v, Value::Int32(31))));
}

#[test]
fn test_delete() {
    let (_dir, mut db) = setup_test_db();
    let executor = MutationExecutor::new();

    let insert = Mutation::insert("User", vec![FieldValue::new("name", text("Bob"))]);
    let insert_result = executor.execute(&mut db, &insert).unwrap();
    let id = insert_result.inserted_ids[0];

    let delete = Mutation::delete("User", id);
    let delete_result = executor.execute(&mut db, &delete).unwrap();
    assert_eq!(delete_result.affected, 1);

    assert!(db.storage.get_latest(&id).unwrap().is_none());
}

#[test]
fn test_delete_nonexistent() {
    let (_dir, mut db) = setup_test_db();
    let executor = MutationExecutor::new();

    let delete = Mutation::delete("User", [0u8; 16]);
    let result = executor.execute(&mut db, &delete).unwrap();
    assert_eq!(result.affected, 0);
}

#[test]
fn test_upsert_insert() {
    let (_dir, mut db) = setup_test_db();
    let executor = MutationExecutor::new();

    let upsert =
        Mutation::upsert("User", None, vec![FieldValue::new("name", text("Charlie"))]);
    let result = executor.execute(&mut db, &upsert).unwrap();
    assert_eq!(result.affected, 1);
    assert_eq!(result.inserted_ids.len(), 1);
}

#[test]
fn test_upsert_update() {
    let (_dir, mut db) = setup_test_db();
    let executor = MutationExecutor::new();

    let insert = Mutation::insert("User", vec![FieldValue::new("name", text("Dave"))]);
    let insert_result = executor.execute(&mut db, &insert).unwrap();
    let id = insert_result.inserted_ids[0];

    let upsert =
        Mutation::upsert("User", Some(id), vec![FieldValue::new("name", text("David"))]);
    let result = executor.execute(&mut db, &upsert).unwrap();
    assert_eq!(result.affected, 1);
    assert!(result.inserted_ids.is_empty());

    let (_, record) = db.storage.get_latest(&id).unwrap().unwrap();
    let fields = decode_entity(&record.data).unwrap();
    assert!(fields.iter().any(|(n, v)| n == "name" && is_text(v, "David")));
}

#[test]
fn test_batch() {
    let (_dir, mut db) = setup_test_db();
    let executor = MutationExecutor::new();

    let batch = MutationBatch::from_mutations(vec![
        Mutation::insert("User", vec![FieldValue::new("name", text("User1"))]),
        Mutation::insert("User", vec![FieldValue::new("name", text("User2"))]),
        Mutation::insert("User", vec![FieldValue::new("name", text("User3"))]),
    ]);

    let result = executor.execute_batch(&mut db, &batch).unwrap();
    assert_eq!(result.affected, 3);
    assert_eq!(result.inserted_ids.len(), 3);
}

#[test]
fn updating_what_is_not_there_is_refused() {
    let (_dir, mut db) = setup_test_db();
    let update =
        Mutation::update("User", [7u8; 16], vec![FieldValue::new("name", text("Nobody"))]);
    let refused = MutationExecutor::new().execute(&mut db, &update);
    match refused {
        Err(e) => {
            assert!(matches!(e, ServerError::Database(_)));
            assert!(server_error_message(&e).contains("07070707070707070707070707070707"));
        }
        Ok(_) => panic!("there is nothing to update"),
    }
}

#[test]
fn merging_keeps_the_identifier_and_sets_the_rest() {
    let id = [3u8; 16];
    let before = vec![
        ("id".to_string(), Value::Uuid(id)),
        ("name".to_string(), text("Alice")),
    ];
    let data = vec![
        FieldValue::new("id", Value::Uuid([9u8; 16])),
        FieldValue::new("name", text("Bob")),
        FieldValue::new("age", Value::Int32(5)),
    ];
    let (after, _changed) = merge_fields(&before, &data);
    assert!(after.iter().any(|(n, v)| n == "id" && matches!(v, Value::Uuid(u) if *u == id)));
    assert!(after.iter().any(|(n, v)| n == "name" && is_text(v, "Bob")));
    assert!(after.iter().any(|(n, v)| n == "age" && matches!(v, Value::Int32(5))));
}

#[test]
fn logged_changes_tell_before_and_after() {
    let (_dir, mut db) = setup_test_db();
    let executor = MutationExecutor::new();
    let id = executor
        .execute_with_cdc(
            &mut db,
            &Mutation::insert("User", vec![FieldValue::new("name", text("Alice"))]),
        )
        .unwrap()
        .inserted_ids[0];
    executor
        .execute_with_cdc(
            &mut db,
            &Mutation::update("User", id, vec![FieldValue::new("name", text("Bob"))]),
        )
        .unwrap();
    executor.execute_with_cdc(&mut db, &Mutation::delete("User", id)).unwrap();
    assert_eq!(db.changelog.current_lsn(), 3);
    let (entries, more) = db.changelog.scan_batch(1, 10);
    assert!(!more);
    assert_eq!(entries.len(), 3);
    assert_eq!(entries[0].change_type, ChangeType::Insert);
    assert!(entries[0].before_data.is_none());
    assert_eq!(entries[1].change_type, ChangeType::Update);
    assert_eq!(entries[1].before_data, entries[0].after_data);
    assert_eq!(entries[2].change_type, ChangeType::Delete);
    assert!(entries[2].after_data.is_none());
    assert_eq!(entries[2].entity_id, id);
}

#[test]
fn commits_are_the_same_on_every_node() {
    let (_a, mut one) = setup_test_db();
    let (_b, mut two) = setup_test_db();
    let insert = Mutation::insert("User", vec![FieldValue::new("name", text("Alice"))]);
    let sent = ensure_assigned_id(&insert, [5u8; 16]);
    let executor = MutationExecutor::at_commit(12);
    let first = executor.execute_at(&mut one, &sent, 1000, [1u8; 16], false).unwrap();
    let second = executor.execute_at(&mut two, &sent, 2000, [2u8; 16], false).unwrap();
    assert_eq!(first.inserted_ids, vec![[5u8; 16]]);
    assert_eq!(second.inserted_ids, vec![[5u8; 16]]);
    assert_eq!(one.storage.get_latest(&[5u8; 16]).unwrap().unwrap().0, 12);
    assert_eq!(two.storage.get_latest(&[5u8; 16]).unwrap().unwrap().0, 12);
    assert_eq!(one.storage.read_watermark(), 12);
}

#[test]
fn a_batch_is_made_as_a_whole_or_not_at_all() {
    let (_dir, mut db) = setup_test_db();
    let executor = MutationExecutor::new();
    let seen = executor
        .execute(&mut db, &Mutation::insert("User", vec![FieldValue::new("name", text("User0"))]))
        .unwrap()
        .inserted_ids[0];
    let watermark = db.storage.read_watermark();
    let batch = MutationBatch::from_mutations(vec![
        Mutation::insert("User", vec![FieldValue::new("name", text("User1"))]),
        Mutation::delete("User", seen),
        Mutation::update("User", [7u8; 16], vec![]),
        Mutation::insert("User", vec![FieldValue::new("name", text("User2"))]),
    ]);
    assert!(executor.execute_batch(&mut db, &batch).is_err());
    assert!(executor.execute_batch_with_cdc(&mut db, &batch).is_err());
    let left = db.storage.scan_entity_type_batch("User").unwrap();
    assert_eq!(left.len(), 1);
    assert_eq!(left[0].0, seen);
    assert_eq!(db.storage.read_watermark(), watermark);
    assert_eq!(db.changelog.current_lsn(), 0);

    // What one mutation of a batch makes, a later one of the batch finds.
    let batch = MutationBatch::from_mutations(vec![
        Mutation::delete("User", seen),
        Mutation::update("User", seen, vec![FieldValue::new("name", text("Late"))]),
    ]);
    assert!(executor.execute_batch(&mut db, &batch).is_err());
    assert!(db.storage.get_latest(&seen).unwrap().is_some());
    let batch = MutationBatch::from_mutations(vec![
        Mutation::update("User", seen, vec![FieldValue::new("name", text("Soon"))]),
        Mutation::delete("User", seen),
    ]);
    assert_eq!(executor.execute_batch(&mut db, &batch).unwrap().affected, 2);
    assert!(db.storage.get_latest(&seen).unwrap().is_none());
}

#[test]
fn an_empty_batch_does_nothing() {
    let (_dir, mut db) = setup_test_db();
    let result = MutationExecutor::new()
        .execute_batch(&mut db, &MutationBatch::from_mutations(vec![]))
        .unwrap();
    assert_eq!(result.affected, 0);
    assert!(result.inserted_ids.is_empty());
}

#[test]
fn logged_batches_tell_each_change() {
    let (_dir, mut db) = setup_test_db();
    let batch = MutationBatch::from_mutations(vec![
        Mutation::insert("User", vec![FieldValue::new("name", text("User1"))]),
        Mutation::insert("User", vec![FieldValue::new("name", text("User2"))]),
    ]);
    let result = MutationExecutor::new().execute_batch_with_cdc(&mut db, &batch).unwrap();
    assert_eq!(result.affected, 2);
    assert_eq!(result.inserted_ids.len(), 2);
    assert_ne!(result.inserted_ids[0], result.inserted_ids[1]);
    let (entries, _) = db.changelog.scan_batch(1, 10);
    let logged: Vec<[u8; 16]> = entries.iter().map(|e| e.entity_id).collect();
    assert_eq!(logged, result.inserted_ids);
}

#[test]
fn mutations_leave_the_rest_alone() {
    let (_dir, mut db) = setup_test_db();
    let executor = MutationExecutor::new();
    let mut insert = |name: &str| {
        let m = Mutation::insert("User", vec![FieldValue::new("name", text(name))]);
        executor.execute(&mut db, &m).unwrap().inserted_ids[0]
    };
    let (ann, bob) = (insert("Ann"), insert("Bob"));
    let before = db.storage.read_watermark();
    let kept = db.storage.get_latest(&bob).unwrap().unwrap();
    let old = db.storage.get_latest(&ann).unwrap().unwrap();
    let update = Mutation::update("User", ann, vec![FieldValue::new("name", text("Eve"))]);
    executor.execute(&mut db, &update).unwrap();
    assert_eq!(db.storage.get_latest(&bob).unwrap().unwrap().1.data, kept.1.data);
    assert_eq!(db.storage.get_as_of(&ann, before).unwrap().unwrap().1.data, old.1.data);
    assert!(db.storage.read_watermark() > before);
    executor.execute(&mut db, &Mutation::delete("User", ann)).unwrap();
    assert!(db.storage.get_latest(&ann).unwrap().is_none());
    let now = db.storage.read_watermark();
    assert!(db.storage.get_as_of(&ann, now).unwrap().is_none());
    assert!(db.storage.get_as_of(&bob, now).unwrap().is_some());
}

#[test]
fn inserted_entities_are_indexed() {
    let (_dir, mut db) = setup_test_db();
    let executor = MutationExecutor::new();
    let m = Mutation::insert("User", vec![FieldValue::new("name", text("Ann"))]);
    let id = executor.execute(&mut db, &m).unwrap().inserted_ids[0];
    assert_eq!(db.storage.hash_lookup("User", "name", &text("Ann")).unwrap(), vec![id]);
    assert!(db.storage.hash_lookup("User", "name", &text("Bob")).unwrap().is_empty());
    executor.execute(&mut db, &Mutation::delete("User", id)).unwrap();
    assert!(db.storage.hash_lookup("User", "name", &text("Ann")).unwrap().is_empty());
}

#[test]
fn each_insert_gets_an_identifier_of_its_own() {
    let (_dir, mut db) = setup_test_db();
    let executor = MutationExecutor::new();
    let insert =
        |name: &str| Mutation::insert("User", vec![FieldValue::new("name", text(name))]);
    let mut ids = Vec::new();
    for n in 1..4 {
        ids.extend(executor.execute(&mut db, &insert("User")).unwrap().inserted_ids);
        assert_eq!(db.next_id, n);
    }
    let batch = MutationBatch::from_mutations(vec![insert("A"), insert("B")]);
    ids.extend(executor.execute_batch(&mut db, &batch).unwrap().inserted_ids);
    assert_eq!(db.next_id, 5);
    let all: std::collections::HashSet<[u8; 16]> = ids.iter().copied().collect();
    assert_eq!(all.len(), 5);
    assert_eq!(db.storage.scan_entity_type_batch("User").unwrap().len(), 5);
    let more = db.fresh_ids(3);
    assert_eq!(more.len(), 3);
    assert_eq!(db.next_id, 8);
}
