use std::sync::atomic::{AtomicU64, Ordering};

use ormdb::bytes::EntityId;
use ormdb::codec::{encode_entity, Field};
use ormdb::storage::engine::{StorageConfig, StorageEngine};
use ormdb::storage::key::VersionedKey;
use ormdb::storage::record::Record;
use ormdb::value::Value;

static COUNTER: AtomicU64 = AtomicU64::new(0);

fn generate_id() -> EntityId {
    StorageEngine::generate_id(1_700_000_000_000_000_000, COUNTER.fetch_add(1, Ordering::SeqCst))
}

struct TestDb {
    engine: StorageEngine,
    _dir: tempfile::TempDir,
}

fn test_engine() -> TestDb {
    let dir = tempfile::tempdir().unwrap();
    let engine = StorageEngine::open(StorageConfig::new(dir.path().to_str().unwrap())).unwrap();
    TestDb { engine, _dir: dir }
}

#[test]
fn test_put_and_get() {
    let mut db = test_engine();
    let entity_id = generate_id();
    let record = Record::new(vec![1, 2, 3, 4, 5]);
    let key = VersionedKey::now(entity_id);

    db.engine.put(key, record.copy()).unwrap();

    let retrieved = db.engine.get(&entity_id, key.version_ts).unwrap().unwrap();
    assert_eq!(retrieved.data, record.data);
}

#[test]
fn test_get_latest() {
    let mut db = test_engine();
    let entity_id = generate_id();

    db.engine.put(VersionedKey::new(entity_id, 100), Record::new(vec![1])).unwrap();
    db.engine.put(VersionedKey::new(entity_id, 200), Record::new(vec![2])).unwrap();
    db.engine.put(VersionedKey::new(entity_id, 300), Record::new(vec![3])).unwrap();

    let (version, latest) = db.engine.get_latest(&entity_id).unwrap().unwrap();
    assert_eq!(version, 300);
    assert_eq!(latest.data, vec![3]);
}

#[test]
fn test_get_at_timestamp() {
    let mut db = test_engine();
    let entity_id = generate_id();

    db.engine.put(VersionedKey::new(entity_id, 100), Record::new(vec![1])).unwrap();
    db.engine.put(VersionedKey::new(entity_id, 200), Record::new(vec![2])).unwrap();
    db.engine.put(VersionedKey::new(entity_id, 300), Record::new(vec![3])).unwrap();

    let (version, record) = db.engine.get_at(&entity_id, 150).unwrap().unwrap();
    assert_eq!(version, 100);
    assert_eq!(record.data, vec![1]);

    let (version, record) = db.engine.get_at(&entity_id, 250).unwrap().unwrap();
    assert_eq!(version, 200);
    assert_eq!(record.data, vec![2]);
}

#[test]
fn test_scan_versions() {
    let mut db = test_engine();
    let entity_id = generate_id();

    db.engine.put(VersionedKey::new(entity_id, 100), Record::new(vec![1])).unwrap();
    db.engine.put(VersionedKey::new(entity_id, 200), Record::new(vec![2])).unwrap();
    db.engine.put(VersionedKey::new(entity_id, 300), Record::new(vec![3])).unwrap();

    let versions: Vec<_> =
        db.engine.scan_versions(&entity_id).into_iter().collect::<Result<Vec<_>, _>>().unwrap();

    assert_eq!(versions.len(), 3);
    assert_eq!(versions[0].0, 100);
    assert_eq!(versions[1].0, 200);
    assert_eq!(versions[2].0, 300);
}

#[test]
fn test_soft_delete() {
    let mut db = test_engine();
    let entity_id = generate_id();

    db.engine.put(VersionedKey::new(entity_id, 100), Record::new(vec![1, 2, 3])).unwrap();
    assert!(db.engine.get_latest(&entity_id).unwrap().is_some());

    db.engine.delete(&entity_id).unwrap();
    assert!(db.engine.get_latest(&entity_id).unwrap().is_none());

    let old = db.engine.get(&entity_id, 100).unwrap().unwrap();
    assert_eq!(old.data, vec![1, 2, 3]);
}

#[test]
fn test_persistence() {
    let dir = tempfile::tempdir().unwrap();
    let path = dir.path().to_str().unwrap();

    let entity_id = generate_id();
    let key = VersionedKey::new(entity_id, 12345);

    {
        let mut engine = StorageEngine::open(StorageConfig::new(path)).unwrap();
        engine.put(key, Record::new(vec![1, 2, 3])).unwrap();
        engine.flush().unwrap();
    }

    {
        let engine = StorageEngine::open(StorageConfig::new(path)).unwrap();
        let record = engine.get(&entity_id, 12345).unwrap().unwrap();
        assert_eq!(record.data, vec![1, 2, 3]);
    }
}

#[test]
fn test_put_typed_and_scan() {
    let mut db = test_engine();

    let user1_id = generate_id();
    let user2_id = generate_id();
    let post1_id = generate_id();

    db.engine
        .put_typed("ScanTestUser", VersionedKey::new(user1_id, 100), Record::new(vec![1]))
        .unwrap();
    db.engine
        .put_typed("ScanTestUser", VersionedKey::new(user2_id, 100), Record::new(vec![2]))
        .unwrap();
    db.engine
        .put_typed("ScanTestPost", VersionedKey::new(post1_id, 100), Record::new(vec![3]))
        .unwrap();
    db.engine.flush().unwrap();

    let users: Vec<_> = db
        .engine
        .scan_entity_type("ScanTestUser")
        .into_iter()
        .collect::<Result<Vec<_>, _>>()
        .unwrap();
    assert_eq!(users.len(), 2);

    let posts: Vec<_> = db
        .engine
        .scan_entity_type("ScanTestPost")
        .into_iter()
        .collect::<Result<Vec<_>, _>>()
        .unwrap();
    assert_eq!(posts.len(), 1);
    assert_eq!(posts[0].0, post1_id);
    assert_eq!(posts[0].2.data, vec![3]);

    let comments: Vec<_> = db
        .engine
        .scan_entity_type("ScanTestComment")
        .into_iter()
        .collect::<Result<Vec<_>, _>>()
        .unwrap();
    assert_eq!(comments.len(), 0);
}

#[test]
fn test_scan_excludes_deleted() {
    let mut db = test_engine();

    let id1 = generate_id();
    let id2 = generate_id();

    db.engine
        .put_typed("DeleteTestUser", VersionedKey::new(id1, 100), Record::new(vec![1]))
        .unwrap();
    db.engine
        .put_typed("DeleteTestUser", VersionedKey::new(id2, 100), Record::new(vec![2]))
        .unwrap();
    db.engine.flush().unwrap();

    let users: Vec<_> = db
        .engine
        .scan_entity_type("DeleteTestUser")
        .into_iter()
        .collect::<Result<Vec<_>, _>>()
        .unwrap();
    assert_eq!(users.len(), 2);

    db.engine.delete_typed("DeleteTestUser", &id1).unwrap();
    db.engine.flush().unwrap();

    let users: Vec<_> = db
        .engine
        .scan_entity_type("DeleteTestUser")
        .into_iter()
        .collect::<Result<Vec<_>, _>>()
        .unwrap();
    assert_eq!(users.len(), 1);
    assert_eq!(users[0].0, id2);
}

#[test]
fn test_list_entity_ids() {
    let mut db = test_engine();

    let id1 = generate_id();
    let id2 = generate_id();

    db.engine
        .put_typed("ListTestItem", VersionedKey::new(id1, 100), Record::new(vec![1]))
        .unwrap();
    db.engine
        .put_typed("ListTestItem", VersionedKey::new(id2, 100), Record::new(vec![2]))
        .unwrap();
    db.engine.flush().unwrap();

    let ids: Vec<_> = db
        .engine
        .list_entity_ids("ListTestItem")
        .into_iter()
        .collect::<Result<Vec<_>, _>>()
        .unwrap();

    assert_eq!(ids.len(), 2);
    assert!(ids.contains(&id1));
    assert!(ids.contains(&id2));
}

#[test]
fn reads_before_the_first_version_find_nothing() {
    let mut db = test_engine();
    let id = generate_id();
    db.engine.put(VersionedKey::new(id, 100), Record::new(vec![1])).unwrap();
    assert!(db.engine.get_at(&id, 99).unwrap().is_none());
    assert!(db.engine.get_as_of(&id, 99).unwrap().is_none());
    assert!(db.engine.get(&id, 99).unwrap().is_none());
    assert_eq!(db.engine.get_at(&id, 100).unwrap().unwrap().0, 100);
}

#[test]
fn as_of_and_at_differ_on_deleted_entities() {
    let mut db = test_engine();
    let id = generate_id();
    db.engine.put(VersionedKey::new(id, 100), Record::new(vec![1])).unwrap();
    db.engine.put(VersionedKey::new(id, 200), Record::tombstone()).unwrap();
    db.engine.put(VersionedKey::new(id, 300), Record::new(vec![3])).unwrap();
    // The newest live version, whatever was deleted since.
    assert_eq!(db.engine.get_at(&id, 250).unwrap().unwrap().0, 100);
    // The newest version, which says that the entity is deleted.
    assert!(db.engine.get_as_of(&id, 250).unwrap().is_none());
    assert_eq!(db.engine.get_as_of(&id, 300).unwrap().unwrap().0, 300);
}

#[test]
fn batches_are_single_reads() {
    let mut db = test_engine();
    let a = generate_id();
    let b = generate_id();
    let c = generate_id();
    db.engine.put(VersionedKey::new(a, 10), Record::new(vec![1])).unwrap();
    db.engine.put(VersionedKey::new(b, 20), Record::new(vec![2])).unwrap();
    let latest = db.engine.get_latest_batch(&[a, c, b]).unwrap();
    assert_eq!(latest.len(), 3);
    assert_eq!(latest[0].as_ref().unwrap().0, 10);
    assert!(latest[1].is_none());
    assert_eq!(latest[2].as_ref().unwrap().1.data, vec![2]);
    let then = db.engine.get_as_of_batch(&[a, b], 15).unwrap();
    assert_eq!(then[0].as_ref().unwrap().0, 10);
    assert!(then[1].is_none());
}

#[test]
fn the_watermark_only_moves_forward() {
    let mut db = test_engine();
    assert_eq!(db.engine.read_watermark(), 0);
    assert_eq!(db.engine.tick_watermark_at(50), 50);
    assert_eq!(db.engine.tick_watermark_at(50), 51);
    assert_eq!(db.engine.tick_watermark_at(7), 52);
    db.engine.advance_watermark_to(60);
    assert_eq!(db.engine.read_watermark(), 60);
    db.engine.advance_watermark_to(3);
    assert_eq!(db.engine.read_watermark(), 60);
    assert!(db.engine.tick_watermark() > 60);
}

#[test]
fn identifiers_have_version_and_variant_marks() {
    let a = StorageEngine::generate_id(0x0102_0304_0506_0708, 9);
    let b = StorageEngine::generate_id(0x0102_0304_0506_0708, 10);
    assert_ne!(a, b);
    assert_eq!(a[6] >> 4, b[6] >> 4);
    assert_eq!(a[8] >> 6, 2);
}

#[test]
fn scans_as_of_a_time_leave_later_entities_out() {
    let mut db = test_engine();
    let early = generate_id();
    let late = generate_id();
    db.engine.put_typed("Thing", VersionedKey::new(early, 100), Record::new(vec![1])).unwrap();
    db.engine.put_typed("Thing", VersionedKey::new(late, 200), Record::new(vec![2])).unwrap();
    let seen: Vec<_> = db
        .engine
        .scan_entity_type_as_of("Thing", 150)
        .into_iter()
        .collect::<Result<Vec<_>, _>>()
        .unwrap();
    assert_eq!(seen.len(), 1);
    assert_eq!(seen[0].0, early);
    assert_eq!(db.engine.scan_entity_type_batch("Thing").unwrap().len(), 2);
}

fn fields(id: EntityId, name: &str) -> Vec<Field> {
    vec![
        ("id".to_string(), Value::Uuid(id)),
        ("name".to_string(), Value::String(name.to_string())),
    ]
}

#[test]
fn secondary_indexes_follow_encoded_data() {
    let mut db = test_engine();
    let id = generate_id();
    assert!(!db.engine.has_hash_index("User", "name").unwrap());
    let before = encode_entity(&fields(id, "Alice")).unwrap();
    let after = encode_entity(&fields(id, "Bob")).unwrap();
    db.engine
        .update_secondary_indexes_from_encoded("User", id, None, Some(&before), &[])
        .unwrap();
    let alice = Value::String("Alice".to_string());
    let bob = Value::String("Bob".to_string());
    assert!(db.engine.has_hash_index("User", "name").unwrap());
    assert_eq!(db.engine.hash_lookup("User", "name", &alice).unwrap(), vec![id]);
    db.engine
        .update_secondary_indexes_from_encoded("User", id, Some(&before), Some(&after), &[])
        .unwrap();
    assert!(db.engine.hash_lookup("User", "name", &alice).unwrap().is_empty());
    assert_eq!(db.engine.hash_lookup("User", "name", &bob).unwrap(), vec![id]);
    // What cannot be read is passed over.
    db.engine
        .update_secondary_indexes_from_encoded("User", id, Some(&[7]), None, &[])
        .unwrap();
    assert_eq!(db.engine.hash_lookup("User", "name", &bob).unwrap(), vec![id]);
}

#[test]
fn pending_entities_are_added_to_a_lookup() {
    let mut db = test_engine();
    let a = generate_id();
    let b = generate_id();
    let name = Value::String("Alice".to_string());
    db.engine.hash_insert("User", "name", &name, a).unwrap();
    assert_eq!(db.engine.lookup_with_changelog("User", "name", &name, None).unwrap(), vec![a]);
    let both = db.engine.lookup_with_changelog("User", "name", &name, Some(&[a, b])).unwrap();
    assert_eq!(both, vec![a, b]);
}

#[test]
fn a_temporary_store_has_no_ordered_index() {
    let mut engine = StorageEngine::open(StorageConfig::temporary()).unwrap();
    assert!(engine.btree_index().is_none());
    assert!(!engine.ensure_btree_index("User", "age").unwrap());
    assert!(!engine.was_recovered());
    assert!(engine.size_on_disk().is_ok());
}

#[test]
fn versions_are_never_overwritten() {
    let mut engine = StorageEngine::open(StorageConfig::temporary()).unwrap();
    let id = StorageEngine::generate_id(1_700_000_000_000_000_000, 7);
    engine.put(VersionedKey::new(id, 100), Record::new(vec![1])).unwrap();
    assert!(engine.put(VersionedKey::new(id, 100), Record::new(vec![2])).is_err());
    assert!(engine.put_typed("User", VersionedKey::new(id, 100), Record::new(vec![2])).is_err());
    assert_eq!(engine.get(&id, 100).unwrap().unwrap().data, vec![1]);
    engine.put(VersionedKey::new(id, 101), Record::new(vec![3])).unwrap();
    assert_eq!(engine.get(&id, 100).unwrap().unwrap().data, vec![1]);
    assert_eq!(engine.get_latest(&id).unwrap().unwrap().1.data, vec![3]);
}

#[test]
fn identifiers_of_one_moment_differ() {
    let now = 1_700_000_000_000_000_000;
    let mut seen = std::collections::HashSet::new();
    for counter in 0..1000 {
        assert!(seen.insert(StorageEngine::generate_id(now, counter)));
    }
    assert_ne!(StorageEngine::generate_id(now, 0), StorageEngine::generate_id(now, 64));
    assert_ne!(StorageEngine::generate_id(now, 1), StorageEngine::generate_id(now, u64::MAX));
}

#[test]
fn reading_no_entities_gives_none() {
    let engine = StorageEngine::open(StorageConfig::temporary()).unwrap();
    assert!(engine.get_latest_batch(&[]).unwrap().is_empty());
    assert!(engine.scan_entity_type_batch("Nobody").unwrap().is_empty());
}

#[test]
fn the_schema_is_kept() {
    let dir = tempfile::tempdir().unwrap();
    let path = dir.path().to_str().unwrap();
    {
        let mut engine = StorageEngine::open(StorageConfig::new(path)).unwrap();
        assert_eq!(engine.kept_schema().unwrap(), None);
        engine.keep_schema(b"first").unwrap();
        engine.keep_schema(b"second").unwrap();
        assert_eq!(engine.kept_schema().unwrap(), Some(b"second".to_vec()));
        engine.flush().unwrap();
    }
    let engine = StorageEngine::open(StorageConfig::new(path)).unwrap();
    assert_eq!(engine.kept_schema().unwrap(), Some(b"second".to_vec()));
}

#[test]
fn a_store_is_where_it_was_opened() {
    let dir = tempfile::tempdir().unwrap();
    let path = dir.path().join("store");
    let path = path.to_str().unwrap();
    let id = generate_id();
    {
        let mut engine = StorageEngine::open(StorageConfig::new(path)).unwrap();
        engine.put_typed("User", VersionedKey::new(id, 100), Record::new(vec![1])).unwrap();
        engine.keep_schema(b"schema").unwrap();
        engine.flush().unwrap();
    }
    assert!(dir.path().join("store").exists());
    let engine = StorageEngine::open(StorageConfig::new(path)).unwrap();
    assert_eq!(engine.get_latest(&id).unwrap().unwrap().1.data, vec![1]);
    assert_eq!(engine.kept_schema().unwrap(), Some(b"schema".to_vec()));
    assert_eq!(engine.list_entity_ids("User").len(), 1);

    let elsewhere = StorageEngine::open(StorageConfig::temporary()).unwrap();
    assert!(elsewhere.get_latest(&id).unwrap().is_none());
}

#[test]
fn identifiers_of_different_moments_differ() {
    let now = 1_700_000_000_000_000_000;
    for later in [0u64, 1, 255, 1 << 40, 1 << 63] {
        assert_ne!(
            StorageEngine::generate_id(now, 5),
            StorageEngine::generate_id(now + later, 6)
        );
    }
}
