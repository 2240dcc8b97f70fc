use std::sync::atomic::{AtomicU64, Ordering};

use ormdb::bytes::EntityId;
use ormdb::codec::encode_entity;
use ormdb::error::DbError;
use ormdb::storage::engine::{StorageConfig, StorageEngine};
use ormdb::storage::key::VersionedKey;
use ormdb::storage::record::Record;
use ormdb::storage::transaction::Transaction;
use ormdb::value::Value;

static COUNTER: AtomicU64 = AtomicU64::new(0);

fn generate_id() -> EntityId {
    StorageEngine::generate_id(1_700_000_000_000_000_000, COUNTER.fetch_add(1, Ordering::SeqCst))
}

fn test_engine() -> StorageEngine {
    StorageEngine::open(StorageConfig::temporary()).unwrap()
}

fn is_text(v: &Option<Value>, text: &str) -> bool {
    matches!(v, Some(Value::String(s)) if s == text)
}

#[test]
fn test_transaction_commit() {
    let mut engine = test_engine();
    let id1 = generate_id();
    let id2 = generate_id();

    let mut tx = Transaction::new();
    tx.put(VersionedKey::new(id1, 100), Record::new(vec![1]));
    tx.put(VersionedKey::new(id2, 100), Record::new(vec![2]));
    tx.commit(&mut engine).unwrap();

    assert!(engine.get(&id1, 100).unwrap().is_some());
    assert!(engine.get(&id2, 100).unwrap().is_some());
}

#[test]
fn test_transaction_rollback() {
    let engine = test_engine();
    let id1 = generate_id();

    let mut tx = Transaction::new();
    tx.put(VersionedKey::new(id1, 100), Record::new(vec![1]));
    tx.rollback();

    assert!(engine.get(&id1, 100).unwrap().is_none());
}

#[test]
fn test_transaction_multiple_versions() {
    let mut engine = test_engine();
    let entity_id = generate_id();

    let mut tx = Transaction::new();
    tx.put(VersionedKey::new(entity_id, 100), Record::new(vec![1]));
    tx.put(VersionedKey::new(entity_id, 200), Record::new(vec![2]));
    tx.put(VersionedKey::new(entity_id, 300), Record::new(vec![3]));
    tx.commit(&mut engine).unwrap();

    assert_eq!(engine.get(&entity_id, 100).unwrap().unwrap().data, vec![1]);
    assert_eq!(engine.get(&entity_id, 200).unwrap().unwrap().data, vec![2]);
    assert_eq!(engine.get(&entity_id, 300).unwrap().unwrap().data, vec![3]);

    let (version, record) = engine.get_latest(&entity_id).unwrap().unwrap();
    assert_eq!(version, 300);
    assert_eq!(record.data, vec![3]);
}

#[test]
fn test_transaction_delete() {
    let mut engine = test_engine();
    let entity_id = generate_id();

    engine.put(VersionedKey::new(entity_id, 100), Record::new(vec![1])).unwrap();

    let mut tx = Transaction::new();
    tx.delete(entity_id);
    tx.commit(&mut engine).unwrap();

    assert!(engine.get_latest(&entity_id).unwrap().is_none());
}

#[test]
fn test_empty_transaction() {
    let mut engine = test_engine();
    let tx = Transaction::new();
    tx.commit(&mut engine).unwrap();
}

#[test]
fn test_transaction_read_within_tx() {
    let mut engine = test_engine();
    let entity_id = generate_id();

    engine.put(VersionedKey::new(entity_id, 100), Record::new(vec![1, 2, 3])).unwrap();

    let mut tx = Transaction::new();
    let record = tx.read(&engine, &entity_id).unwrap().unwrap();
    assert_eq!(record.data, vec![1, 2, 3]);

    assert!(tx.read_version(&entity_id).is_some());
}

#[test]
fn test_transaction_read_uncommitted_write() {
    let engine = test_engine();
    let entity_id = generate_id();

    let mut tx = Transaction::new();
    tx.insert("TestEntity", entity_id, Record::new(vec![42]));

    let record = tx.read(&engine, &entity_id).unwrap().unwrap();
    assert_eq!(record.data, vec![42]);
}

#[test]
fn test_transaction_exists() {
    let mut engine = test_engine();
    let id1 = generate_id();
    let id2 = generate_id();

    engine.put(VersionedKey::new(id1, 100), Record::new(vec![1])).unwrap();

    let mut tx = Transaction::new();
    assert!(tx.entity_exists(&engine, &id1).unwrap());
    assert!(!tx.entity_exists(&engine, &id2).unwrap());

    tx.insert("TestEntity", id2, Record::new(vec![2]));
    assert!(tx.entity_exists(&engine, &id2).unwrap());
}

#[test]
fn test_transaction_version_conflict() {
    let mut engine = test_engine();
    let entity_id = generate_id();

    engine.put(VersionedKey::new(entity_id, 100), Record::new(vec![1])).unwrap();

    let mut tx = Transaction::new();
    tx.expect_version(entity_id, 50);
    tx.put(VersionedKey::new(entity_id, 200), Record::new(vec![2]));

    let result = tx.commit(&mut engine);
    assert!(result.is_err());
    if let Err(DbError::TransactionConflict { expected, actual, .. }) = result {
        assert_eq!(expected, 50);
        assert_eq!(actual, 100);
    } else {
        panic!("Expected TransactionConflict error");
    }
}

#[test]
fn test_transaction_version_match() {
    let mut engine = test_engine();
    let entity_id = generate_id();

    engine.put(VersionedKey::new(entity_id, 100), Record::new(vec![1])).unwrap();

    let mut tx = Transaction::new();
    tx.expect_version(entity_id, 100);
    tx.put(VersionedKey::new(entity_id, 200), Record::new(vec![2]));
    tx.commit(&mut engine).unwrap();

    let (version, record) = engine.get_latest(&entity_id).unwrap().unwrap();
    assert_eq!(version, 200);
    assert_eq!(record.data, vec![2]);
}

#[test]
fn test_transaction_typed_put() {
    let mut engine = test_engine();
    let entity_id = generate_id();

    let mut tx = Transaction::new();
    tx.put_typed("TxTestUser", VersionedKey::new(entity_id, 100), Record::new(vec![1, 2, 3]));
    tx.commit(&mut engine).unwrap();

    let users: Vec<_> = engine
        .scan_entity_type("TxTestUser")
        .into_iter()
        .collect::<Result<Vec<_>, _>>()
        .unwrap();
    assert_eq!(users.len(), 1);
    assert_eq!(users[0].0, entity_id);
}

#[test]
fn test_transaction_update() {
    let mut engine = test_engine();
    let entity_id = generate_id();

    engine
        .put_typed("UpdateTestUser", VersionedKey::new(entity_id, 100), Record::new(vec![1]))
        .unwrap();

    let mut tx = Transaction::new();
    tx.update("UpdateTestUser", entity_id, Record::new(vec![2, 3, 4]));
    tx.commit(&mut engine).unwrap();

    let (_, record) = engine.get_latest(&entity_id).unwrap().unwrap();
    assert_eq!(record.data, vec![2, 3, 4]);
}

#[test]
fn test_transaction_delete_read_cache() {
    let mut engine = test_engine();
    let entity_id = generate_id();

    engine.put(VersionedKey::new(entity_id, 100), Record::new(vec![1])).unwrap();

    let mut tx = Transaction::new();
    tx.delete(entity_id);

    assert!(tx.read(&engine, &entity_id).unwrap().is_none());
    assert!(!tx.entity_exists(&engine, &entity_id).unwrap());
}

#[test]
fn test_transaction_updates_indexes_and_columnar() {
    let dir = tempfile::tempdir().unwrap();
    let mut engine =
        StorageEngine::open(StorageConfig::new(dir.path().to_str().unwrap())).unwrap();

    let btree_ready = engine.ensure_btree_index("User", "age").unwrap();
    assert!(btree_ready);

    let entity_id = generate_id();

    let initial_fields = vec![
        ("id".to_string(), Value::Uuid(entity_id)),
        ("name".to_string(), Value::String("Alice".to_string())),
        ("age".to_string(), Value::Int32(30)),
    ];
    let initial_data = encode_entity(&initial_fields).unwrap();

    let mut tx = Transaction::new();
    tx.insert("User", entity_id, Record::new(initial_data));
    tx.commit(&mut engine).unwrap();

    let name_ids =
        engine.hash_lookup("User", "name", &Value::String("Alice".to_string())).unwrap();
    assert_eq!(name_ids, vec![entity_id]);

    let age_ids = engine.btree_index().unwrap().scan_equal("User", "age", &Value::Int32(30));
    assert_eq!(age_ids, vec![entity_id]);

    assert!(is_text(&engine.get_column("User", &entity_id, "name").unwrap(), "Alice"));
    assert!(matches!(
        engine.get_column("User", &entity_id, "age").unwrap(),
        Some(Value::Int32(30))
    ));

    let updated_fields = vec![
        ("id".to_string(), Value::Uuid(entity_id)),
        ("name".to_string(), Value::String("Bob".to_string())),
        ("age".to_string(), Value::Int32(31)),
    ];
    let updated_data = encode_entity(&updated_fields).unwrap();

    let mut tx = Transaction::new();
    tx.update("User", entity_id, Record::new(updated_data));
    tx.commit(&mut engine).unwrap();

    let old_name_ids =
        engine.hash_lookup("User", "name", &Value::String("Alice".to_string())).unwrap();
    assert!(old_name_ids.is_empty());
    let new_name_ids =
        engine.hash_lookup("User", "name", &Value::String("Bob".to_string())).unwrap();
    assert_eq!(new_name_ids, vec![entity_id]);

    let old_age_ids = engine.btree_index().unwrap().scan_equal("User", "age", &Value::Int32(30));
    assert!(old_age_ids.is_empty());
    let new_age_ids = engine.btree_index().unwrap().scan_equal("User", "age", &Value::Int32(31));
    assert_eq!(new_age_ids, vec![entity_id]);

    assert!(is_text(&engine.get_column("User", &entity_id, "name").unwrap(), "Bob"));
    assert!(matches!(
        engine.get_column("User", &entity_id, "age").unwrap(),
        Some(Value::Int32(31))
    ));

    let mut tx = Transaction::new();
    tx.delete_typed("User", entity_id);
    tx.commit(&mut engine).unwrap();

    let deleted_name_ids =
        engine.hash_lookup("User", "name", &Value::String("Bob".to_string())).unwrap();
    assert!(deleted_name_ids.is_empty());
    let deleted_age_ids =
        engine.btree_index().unwrap().scan_equal("User", "age", &Value::Int32(31));
    assert!(deleted_age_ids.is_empty());
    assert!(engine.get_column("User", &entity_id, "name").unwrap().is_none());
    assert!(engine.get_column("User", &entity_id, "age").unwrap().is_none());
}

#[test]
fn versioned_commits_stamp_every_write_alike() {
    let mut engine = test_engine();
    let a = generate_id();
    let b = generate_id();
    let mut tx = Transaction::new();
    tx.put_typed("Thing", VersionedKey::new(a, 1), Record::new(vec![1]));
    tx.put_typed("Thing", VersionedKey::new(b, 2), Record::new(vec![2]));
    let ts = tx.commit_versioned_at(&mut engine, 500).unwrap();
    assert_eq!(ts, 500);
    assert_eq!(engine.read_watermark(), 500);
    assert_eq!(engine.get_latest(&a).unwrap().unwrap().0, 500);
    assert_eq!(engine.get_latest(&b).unwrap().unwrap().0, 500);
    assert!(engine.get_as_of(&a, 499).unwrap().is_none());

    let mut tx = Transaction::new();
    tx.delete(a);
    let later = tx.commit_versioned_at(&mut engine, 400).unwrap();
    assert_eq!(later, 501);
    assert!(engine.get_latest(&a).unwrap().is_none());
    assert_eq!(engine.get_as_of(&a, 500).unwrap().unwrap().1.data, vec![1]);
}

#[test]
fn a_conflict_changes_nothing() {
    let mut engine = test_engine();
    let a = generate_id();
    let b = generate_id();
    let mut tx = Transaction::new();
    tx.put(VersionedKey::new(b, 10), Record::new(vec![9]));
    tx.expect_version(a, 7);
    let refused = tx.commit(&mut engine);
    assert!(matches!(
        refused,
        Err(DbError::TransactionConflict { expected: 7, actual: 0, .. })
    ));
    assert!(engine.get_latest(&b).unwrap().is_none());
}

#[test]
fn a_transaction_tells_what_it_will_do() {
    let mut engine = test_engine();
    let a = generate_id();
    let b = generate_id();
    engine.put(VersionedKey::new(a, 5), Record::new(vec![1])).unwrap();
    let mut tx = Transaction::new();
    assert_eq!(tx.operation_count(), 0);
    assert_eq!(tx.get_version(&engine, &a).unwrap(), Some(5));
    assert_eq!(tx.get_version(&engine, &b).unwrap(), None);
    tx.put(VersionedKey::new(b, 6), Record::new(vec![2]));
    assert!(tx.is_writing(&b));
    assert!(!tx.is_writing(&a));
    assert_eq!(tx.operation_count(), 1);
    assert_eq!(tx.operations().len(), 1);
}

#[test]
fn what_was_read_must_still_be_current() {
    let mut engine = test_engine();
    let read = generate_id();
    let written = generate_id();
    engine.put(VersionedKey::new(read, 100), Record::new(vec![1])).unwrap();

    let mut tx = Transaction::new();
    assert!(tx.read(&engine, &read).unwrap().is_some());
    engine.put(VersionedKey::new(read, 200), Record::new(vec![2])).unwrap();
    tx.put(VersionedKey::new(written, 300), Record::new(vec![3]));
    match tx.commit(&mut engine) {
        Err(DbError::TransactionConflict { entity_id, expected: 100, actual: 200 }) => {
            assert_eq!(entity_id, read);
        }
        other => panic!("expected a conflict, got {other:?}"),
    }
    assert!(engine.get_latest(&written).unwrap().is_none());

    // Nothing came in between this time.
    let mut tx = Transaction::new();
    tx.read(&engine, &read).unwrap();
    tx.put(VersionedKey::new(written, 300), Record::new(vec![3]));
    tx.commit(&mut engine).unwrap();
    assert!(engine.get_latest(&written).unwrap().is_some());
}

#[test]
fn what_a_transaction_wrote_is_read_without_the_store() {
    let engine = test_engine();
    let id = generate_id();
    let mut tx = Transaction::new();
    tx.put(VersionedKey::new(id, 100), Record::new(vec![1]));
    assert_eq!(tx.read(&engine, &id).unwrap().unwrap().data, vec![1]);
    assert!(tx.entity_exists(&engine, &id).unwrap());
    assert_eq!(tx.read_version(&id), None);
}
