use std::sync::atomic::{AtomicU64, Ordering};

use ormdb::bytes::EntityId;
use ormdb::catalog::{Catalog, EntityDef, FieldDef, FieldType, ScalarType, SchemaBundle};
use ormdb::codec::{decode_entity, encode_entity};
use ormdb::query::ast::{FilterExpr, QueryResult, RelationDef};
use ormdb::query::executor::QueryExecutor;
use ormdb::query::fracture::{distinct_generations, is_fractured};
use ormdb::query::planner::{GraphQuery, RelationInclude};
use ormdb::storage::engine::{StorageConfig, StorageEngine};
use ormdb::storage::key::VersionedKey;
use ormdb::storage::record::Record;
use ormdb::storage::transaction::Transaction;
use ormdb::value::Value;

static COUNTER: AtomicU64 = AtomicU64::new(0);

fn generate_id() -> EntityId {
    StorageEngine::generate_id(1_700_000_000_000_000_000, COUNTER.fetch_add(1, Ordering::SeqCst))
}

struct TestContext {
    storage: StorageEngine,
    catalog: Catalog,
    _dir: tempfile::TempDir,
}

fn scalar(name: &str, t: ScalarType) -> FieldDef {
    FieldDef::new(name, FieldType::Scalar(t))
}

fn with_schema() -> TestContext {
    let dir = tempfile::tempdir().unwrap();
    let storage = StorageEngine::open(StorageConfig::new(dir.path().to_str().unwrap())).unwrap();
    let mut catalog = Catalog::new();
    let user = EntityDef::new("User", "id")
        .with_field(scalar("id", ScalarType::Uuid))
        .with_field(scalar("name", ScalarType::String))
        .with_field(scalar("email", ScalarType::String))
        .with_field(scalar("age", ScalarType::Int32))
        .with_field(scalar("status", ScalarType::String));
    let post = EntityDef::new("Post", "id")
        .with_field(scalar("id", ScalarType::Uuid))
        .with_field(scalar("author_id", ScalarType::Uuid))
        .with_field(scalar("title", ScalarType::String))
        .with_field(scalar("content", ScalarType::String))
        .with_field(scalar("views", ScalarType::Int64))
        .with_field(scalar("published", ScalarType::Bool));
    let posts = RelationDef::one_to_many("posts", "User", "id", "Post", "author_id");
    catalog.apply_schema(
        SchemaBundle::new(1).with_entity(user).with_entity(post).with_relation(posts),
    );
    TestContext { storage, catalog, _dir: dir }
}

fn user_fields(id: EntityId, generation: i64) -> Vec<(String, Value)> {
    vec![
        ("id".into(), Value::Uuid(id)),
        ("name".into(), Value::String(format!("gen{generation}"))),
        ("email".into(), Value::String("u@example.com".into())),
        ("age".into(), Value::Int32(30)),
        ("status".into(), Value::String("active".into())),
    ]
}

fn post_fields(id: EntityId, author_id: EntityId, generation: i64) -> Vec<(String, Value)> {
    vec![
        ("id".into(), Value::Uuid(id)),
        ("author_id".into(), Value::Uuid(author_id)),
        ("title".into(), Value::String(format!("gen{generation}"))),
        ("content".into(), Value::String("body".into())),
        ("views".into(), Value::Int64(0)),
        ("published".into(), Value::Bool(true)),
    ]
}

fn rec(fields: Vec<(String, Value)>) -> Record {
    Record::new(encode_entity(&fields).unwrap())
}

fn put(
    storage: &mut StorageEngine,
    entity_type: &str,
    id: EntityId,
    version_ts: u64,
    fields: Vec<(String, Value)>,
) {
    storage.put_typed(entity_type, VersionedKey::new(id, version_ts), rec(fields)).unwrap();
}

fn commit_generation(
    storage: &mut StorageEngine,
    user: EntityId,
    post: EntityId,
    version_ts: u64,
    generation: i64,
) {
    let mut txn = Transaction::new();
    txn.put_typed("User", VersionedKey::new(user, version_ts), rec(user_fields(user, generation)));
    txn.put_typed(
        "Post",
        VersionedKey::new(post, version_ts),
        rec(post_fields(post, user, generation)),
    );
    txn.commit(storage).unwrap();
}

fn string_field(fields: &[(String, Value)], name: &str) -> String {
    fields
        .iter()
        .find(|(k, _)| k == name)
        .and_then(|(_, v)| match v {
            Value::String(s) => Some(s.clone()),
            _ => None,
        })
        .unwrap_or_else(|| panic!("missing string field {name}"))
}

fn block_str(result: &QueryResult, entity: &str, column: &str) -> String {
    let block = result
        .entities
        .iter()
        .find(|b| b.entity == entity)
        .unwrap_or_else(|| panic!("no entity block named {entity}"));
    match &block.column(column).unwrap().values[0] {
        Value::String(s) => s.clone(),
        other => panic!("{entity}.{column} not a string: {other:?}"),
    }
}

#[test]
fn fractured_graph_read_is_observable_at_storage_layer() {
    let mut ctx = with_schema();
    let storage = &mut ctx.storage;
    let user = generate_id();
    let post = generate_id();

    put(storage, "User", user, 1_000, user_fields(user, 0));
    put(storage, "Post", post, 1_000, post_fields(post, user, 0));

    let (root_version, user_rec) = storage.get_latest(&user).unwrap().unwrap();
    let user_gen = string_field(&decode_entity(&user_rec.data).unwrap(), "name");
    assert_eq!(user_gen, "gen0");

    commit_generation(storage, user, post, 2_000, 1);

    let batch = storage.get_latest_batch(&[post]).unwrap();
    let (child_version, post_rec) = batch[0].as_ref().unwrap();
    let post_gen = string_field(&decode_entity(&post_rec.data).unwrap(), "title");
    assert_eq!(post_gen, "gen1");

    assert!(*child_version > root_version, "child read at a later version than root");
    assert_ne!(
        user_gen, post_gen,
        "fractured graph read: root observed gen0 but related entity observed gen1"
    );

    let (_, user_at) = storage.get_at(&user, root_version).unwrap().unwrap();
    let (_, post_at) = storage.get_at(&post, root_version).unwrap().unwrap();
    assert_eq!(
        string_field(&decode_entity(&user_at.data).unwrap(), "name"),
        string_field(&decode_entity(&post_at.data).unwrap(), "title"),
        "snapshot read (get_at) at the root version must be a consistent cut"
    );
}

#[test]
fn fractured_graph_read_via_lazy_loading_through_executor() {
    let mut ctx = with_schema();
    let user = generate_id();
    let post = generate_id();

    put(&mut ctx.storage, "User", user, 1_000, user_fields(user, 0));
    put(&mut ctx.storage, "Post", post, 1_000, post_fields(post, user, 0));

    let q_user = GraphQuery::new("User").with_filter(FilterExpr::eq("id", Value::Uuid(user)));
    let r1 = QueryExecutor::new(&ctx.catalog).execute(&mut ctx.storage, &q_user).unwrap();
    let user_gen = match &r1.entities[0].column("name").unwrap().values[0] {
        Value::String(s) => s.clone(),
        other => panic!("unexpected name value: {other:?}"),
    };
    assert_eq!(user_gen, "gen0");

    commit_generation(&mut ctx.storage, user, post, 2_000, 1);

    let q_posts =
        GraphQuery::new("Post").with_filter(FilterExpr::eq("author_id", Value::Uuid(user)));
    let r2 = QueryExecutor::new(&ctx.catalog).execute(&mut ctx.storage, &q_posts).unwrap();
    let post_gen = match &r2.entities[0].column("title").unwrap().values[0] {
        Value::String(s) => s.clone(),
        other => panic!("unexpected title value: {other:?}"),
    };
    assert_eq!(post_gen, "gen1");

    assert_ne!(
        user_gen, post_gen,
        "lazy-loaded relation observed gen1 while the root was gen0: fractured graph"
    );
}

#[test]
fn snapshot_graph_fetch_is_graph_atomic() {
    let mut ctx = with_schema();
    let user = generate_id();
    let post = generate_id();

    put(&mut ctx.storage, "User", user, 1_000, user_fields(user, 0));
    put(&mut ctx.storage, "Post", post, 1_000, post_fields(post, user, 0));
    commit_generation(&mut ctx.storage, user, post, 2_000, 1);

    let query = GraphQuery::new("User").with_include(RelationInclude::new("posts"));
    let mut executor = QueryExecutor::new(&ctx.catalog);

    let r_old = executor.execute_as_of(&mut ctx.storage, &query, 1_500).unwrap();
    assert_eq!(block_str(&r_old, "User", "name"), "gen0");
    assert_eq!(block_str(&r_old, "Post", "title"), "gen0", "include must share the root's cut");
    assert_eq!(
        r_old.edges.iter().map(|e| e.edges.len()).sum::<usize>(),
        1,
        "user->post edge present"
    );

    let r_new = executor.execute_as_of(&mut ctx.storage, &query, 2_500).unwrap();
    assert_eq!(block_str(&r_new, "User", "name"), "gen1");
    assert_eq!(block_str(&r_new, "Post", "title"), "gen1");

    for (root, child) in [(&r_old, "gen0"), (&r_new, "gen1")] {
        assert_eq!(block_str(root, "User", "name"), child);
        assert_eq!(block_str(root, "Post", "title"), child);
    }
}

#[test]
fn snapshot_excludes_writes_after_read_ts() {
    let mut ctx = with_schema();
    let user = generate_id();
    let post1 = generate_id();
    let post2 = generate_id();

    put(&mut ctx.storage, "User", user, 1_000, user_fields(user, 0));
    put(&mut ctx.storage, "Post", post1, 1_000, post_fields(post1, user, 0));
    put(&mut ctx.storage, "Post", post2, 2_000, post_fields(post2, user, 0));

    let query = GraphQuery::new("User").with_include(RelationInclude::new("posts"));
    let mut executor = QueryExecutor::new(&ctx.catalog);

    let r = executor.execute_as_of(&mut ctx.storage, &query, 1_500).unwrap();
    let post_block = r.entities.iter().find(|b| b.entity == "Post").unwrap();
    assert_eq!(post_block.len(), 1, "post created after read_ts must be excluded");

    let r2 = executor.execute_as_of(&mut ctx.storage, &query, 2_500).unwrap();
    let post_block2 = r2.entities.iter().find(|b| b.entity == "Post").unwrap();
    assert_eq!(post_block2.len(), 2);
}

#[test]
fn watermark_snapshot_is_consistent_under_versioned_commits() {
    let mut ctx = with_schema();
    let user = generate_id();
    let post = generate_id();

    let mut t0 = Transaction::new();
    t0.put_typed("User", VersionedKey::now(user), rec(user_fields(user, 0)));
    t0.put_typed("Post", VersionedKey::now(post), rec(post_fields(post, user, 0)));
    t0.commit_versioned(&mut ctx.storage).unwrap();
    let w0 = ctx.storage.read_watermark();

    let mut t1 = Transaction::new();
    t1.put_typed("User", VersionedKey::now(user), rec(user_fields(user, 1)));
    t1.put_typed("Post", VersionedKey::now(post), rec(post_fields(post, user, 1)));
    let ts1 = t1.commit_versioned(&mut ctx.storage).unwrap();
    assert!(ts1 > w0, "commit timestamps must be monotonic");
    assert!(ctx.storage.read_watermark() > w0);

    let query = GraphQuery::new("User").with_include(RelationInclude::new("posts"));
    let r = QueryExecutor::new(&ctx.catalog)
        .execute_as_of(&mut ctx.storage, &query, w0)
        .unwrap();
    assert_eq!(block_str(&r, "User", "name"), "gen0");
    assert_eq!(block_str(&r, "Post", "title"), "gen0");
}

#[test]
fn get_as_of_respects_tombstones() {
    let mut ctx = with_schema();
    let post = generate_id();

    put(&mut ctx.storage, "Post", post, 1_000, post_fields(post, generate_id(), 0));
    ctx.storage
        .put_typed("Post", VersionedKey::new(post, 2_000), Record::tombstone())
        .unwrap();

    assert!(ctx.storage.get_as_of(&post, 1_500).unwrap().is_some(), "live before delete");
    assert!(ctx.storage.get_as_of(&post, 2_500).unwrap().is_none(), "hidden at/after delete");
}

#[test]
fn snapshots_are_not_fractured() {
    let mut ctx = with_schema();
    let marks = vec![
        ("User".to_string(), "name".to_string()),
        ("Post".to_string(), "title".to_string()),
    ];
    let user = generate_id();
    let post = generate_id();
    put(&mut ctx.storage, "User", user, 1_000, user_fields(user, 0));
    put(&mut ctx.storage, "Post", post, 1_000, post_fields(post, user, 0));
    // Half of a later generation.
    put(&mut ctx.storage, "Post", post, 2_000, post_fields(post, user, 1));

    let query = GraphQuery::new("User").with_include(RelationInclude::new("posts"));
    let mut executor = QueryExecutor::new(&ctx.catalog);
    let then = executor.execute_as_of(&mut ctx.storage, &query, 1_500).unwrap();
    assert!(!is_fractured(&then, &marks));
    assert_eq!(distinct_generations(&then, &marks), vec!["gen0".to_string()]);

    let now = executor.execute(&mut ctx.storage, &query).unwrap();
    assert!(is_fractured(&now, &marks));
    assert_eq!(
        distinct_generations(&now, &marks),
        vec!["gen0".to_string(), "gen1".to_string()]
    );
    assert!(distinct_generations(&now, &Vec::new()).is_empty());
}
