use std::sync::atomic::{AtomicU64, Ordering};

use ormdb::bytes::EntityId;
use ormdb::catalog::{Catalog, EntityDef, FieldDef, FieldType, ScalarType, SchemaBundle};
use ormdb::codec::encode_entity;
use ormdb::error::DbError;
use ormdb::query::ast::{
    FanoutBudget, FilterExpr, OrderSpec, Pagination, RelationDef, SearchExpr, SearchKind,
};
use ormdb::query::executor::{QueryCounters, QueryExecutor};
use ormdb::query::fetch::SearchHits;
use ormdb::query::plan_cache::PlanCache;
use ormdb::query::planner::{plan_with_budget, GraphQuery, RelationInclude};
use ormdb::query::rows::{FieldMask, MaskRule};
use ormdb::query::statistics::TableStatistics;
use ormdb::security::{RlsPolicy, SecurityContext};
use ormdb::storage::engine::{StorageConfig, StorageEngine};
use ormdb::storage::key::VersionedKey;
use ormdb::storage::record::Record;
use ormdb::value::Value;

static COUNTER: AtomicU64 = AtomicU64::new(0);

fn generate_id() -> EntityId {
    StorageEngine::generate_id(1_700_000_000_000_000_000, COUNTER.fetch_add(1, Ordering::SeqCst))
}

struct TestDb {
    storage: StorageEngine,
    catalog: Catalog,
    _dir: tempfile::TempDir,
}

fn setup_test_db() -> TestDb {
    let dir = tempfile::tempdir().unwrap();
    let storage = StorageEngine::open(StorageConfig::new(dir.path().to_str().unwrap())).unwrap();
    let mut catalog = Catalog::new();

    let user = EntityDef::new("User", "id")
        .with_field(FieldDef::new("id", FieldType::Scalar(ScalarType::Uuid)))
        .with_field(FieldDef::new("name", FieldType::Scalar(ScalarType::String)))
        .with_field(FieldDef::new("age", FieldType::Scalar(ScalarType::Int32)));

    let post = EntityDef::new("Post", "id")
        .with_field(FieldDef::new("id", FieldType::Scalar(ScalarType::Uuid)))
        .with_field(FieldDef::new("title", FieldType::Scalar(ScalarType::String)))
        .with_field(FieldDef::new("author_id", FieldType::Scalar(ScalarType::Uuid)));

    let user_posts = RelationDef::one_to_many("posts", "User", "id", "Post", "author_id");

    let schema =
        SchemaBundle::new(1).with_entity(user).with_entity(post).with_relation(user_posts);
    catalog.apply_schema(schema);

    TestDb { storage, catalog, _dir: dir }
}

fn insert_user(db: &mut TestDb, id: EntityId, name: &str, age: i32) {
    let fields = vec![
        ("id".to_string(), Value::Uuid(id)),
        ("name".to_string(), Value::String(name.to_string())),
        ("age".to_string(), Value::Int32(age)),
    ];
    let data = encode_entity(&fields).unwrap();
    db.storage.put_typed("User", VersionedKey::now(id), Record::new(data)).unwrap();
}

fn index_user_name(db: &mut TestDb, id: EntityId, name: &str) {
    db.storage.hash_insert("User", "name", &Value::String(name.to_string()), id).unwrap();
}

fn insert_post(db: &mut TestDb, id: EntityId, title: &str, author_id: EntityId) {
    let fields = vec![
        ("id".to_string(), Value::Uuid(id)),
        ("title".to_string(), Value::String(title.to_string())),
        ("author_id".to_string(), Value::Uuid(author_id)),
    ];
    let data = encode_entity(&fields).unwrap();
    db.storage.put_typed("Post", VersionedKey::now(id), Record::new(data)).unwrap();
}

fn is_text(v: &Value, text: &str) -> bool {
    matches!(v, Value::String(s) if s == text)
}

#[test]
fn test_simple_query() {
    let mut db = setup_test_db();
    let user1_id = generate_id();
    let user2_id = generate_id();
    insert_user(&mut db, user1_id, "Alice", 30);
    insert_user(&mut db, user2_id, "Bob", 25);
    db.storage.flush().unwrap();

    let mut executor = QueryExecutor::new(&db.catalog);
    let query = GraphQuery::new("User");
    let result = executor.execute(&mut db.storage, &query).unwrap();

    assert_eq!(result.entities.len(), 1);
    assert_eq!(result.entities[0].entity, "User");
    assert_eq!(result.entities[0].len(), 2);
    assert!(!result.has_more);
}

#[test]
fn test_query_with_filter() {
    let mut db = setup_test_db();
    insert_user(&mut db, generate_id(), "Alice", 30);
    insert_user(&mut db, generate_id(), "Bob", 25);
    db.storage.flush().unwrap();

    let mut executor = QueryExecutor::new(&db.catalog);
    let query = GraphQuery::new("User").with_filter(FilterExpr::gt("age", Value::Int32(28)));
    let result = executor.execute(&mut db.storage, &query).unwrap();

    assert_eq!(result.entities[0].len(), 1);
    let name_col = result.entities[0].column("name").unwrap();
    assert!(is_text(&name_col.values[0], "Alice"));
}

#[test]
fn test_query_with_sorting() {
    let mut db = setup_test_db();
    insert_user(&mut db, generate_id(), "Charlie", 35);
    insert_user(&mut db, generate_id(), "Alice", 30);
    insert_user(&mut db, generate_id(), "Bob", 25);
    db.storage.flush().unwrap();

    let mut executor = QueryExecutor::new(&db.catalog);
    let query = GraphQuery::new("User").with_order(OrderSpec::asc("name"));
    let result = executor.execute(&mut db.storage, &query).unwrap();

    let name_col = result.entities[0].column("name").unwrap();
    assert!(is_text(&name_col.values[0], "Alice"));
    assert!(is_text(&name_col.values[1], "Bob"));
    assert!(is_text(&name_col.values[2], "Charlie"));
}

#[test]
fn test_query_with_pagination() {
    let mut db = setup_test_db();
    for i in 0..10 {
        insert_user(&mut db, generate_id(), &format!("User{}", i), 20 + i);
    }
    db.storage.flush().unwrap();

    let mut executor = QueryExecutor::new(&db.catalog);

    let query = GraphQuery::new("User")
        .with_order(OrderSpec::asc("name"))
        .with_pagination(Pagination::new(3, 0));
    let result = executor.execute(&mut db.storage, &query).unwrap();
    assert_eq!(result.entities[0].len(), 3);
    assert!(result.has_more);

    let query = GraphQuery::new("User")
        .with_order(OrderSpec::asc("name"))
        .with_pagination(Pagination::new(3, 3));
    let result = executor.execute(&mut db.storage, &query).unwrap();
    assert_eq!(result.entities[0].len(), 3);
    assert!(result.has_more);
}

#[test]
fn test_query_with_field_projection() {
    let mut db = setup_test_db();
    insert_user(&mut db, generate_id(), "Alice", 30);
    db.storage.flush().unwrap();

    let mut executor = QueryExecutor::new(&db.catalog);
    let query = GraphQuery::new("User").with_fields(vec!["name".into()]);
    let result = executor.execute(&mut db.storage, &query).unwrap();

    assert_eq!(result.entities[0].columns.len(), 1);
    assert_eq!(result.entities[0].columns[0].name, "name");
}

#[test]
fn test_query_with_projection_and_order_by() {
    let mut db = setup_test_db();
    insert_user(&mut db, generate_id(), "Alice", 30);
    insert_user(&mut db, generate_id(), "Bob", 20);
    db.storage.flush().unwrap();

    let mut executor = QueryExecutor::new(&db.catalog);
    let query = GraphQuery::new("User")
        .with_fields(vec!["name".into()])
        .with_order(OrderSpec::asc("age"));
    let result = executor.execute(&mut db.storage, &query).unwrap();

    let name_col = result.entities[0].column("name").unwrap();
    assert!(is_text(&name_col.values[0], "Bob"));
    assert!(is_text(&name_col.values[1], "Alice"));
}

#[test]
fn test_query_with_include() {
    let mut db = setup_test_db();
    let user_id = generate_id();
    insert_user(&mut db, user_id, "Alice", 30);
    insert_post(&mut db, generate_id(), "First Post", user_id);
    insert_post(&mut db, generate_id(), "Second Post", user_id);
    db.storage.flush().unwrap();

    let mut executor = QueryExecutor::new(&db.catalog);
    let query = GraphQuery::new("User").with_include(RelationInclude::new("posts"));
    let result = executor.execute(&mut db.storage, &query).unwrap();

    assert_eq!(result.entities.len(), 2);
    assert_eq!(result.entities[0].entity, "User");
    assert_eq!(result.entities[1].entity, "Post");
    assert_eq!(result.entities[1].len(), 2);
    assert_eq!(result.edges.len(), 1);
    assert_eq!(result.edges[0].relation, "posts");
    assert_eq!(result.edges[0].len(), 2);
}

#[test]
fn test_empty_query_result() {
    let mut db = setup_test_db();
    let mut executor = QueryExecutor::new(&db.catalog);
    let query = GraphQuery::new("User");
    let result = executor.execute(&mut db.storage, &query).unwrap();

    assert_eq!(result.entities.len(), 1);
    assert!(result.entities[0].is_empty());
}

#[test]
fn test_query_with_like_filter() {
    let mut db = setup_test_db();
    insert_user(&mut db, generate_id(), "Alice", 30);
    insert_user(&mut db, generate_id(), "Bob", 25);
    db.storage.flush().unwrap();

    let mut executor = QueryExecutor::new(&db.catalog);
    let query = GraphQuery::new("User").with_filter(FilterExpr::like("name", "A%"));
    let result = executor.execute(&mut db.storage, &query).unwrap();

    assert_eq!(result.entities[0].len(), 1);
    let name_col = result.entities[0].column("name").unwrap();
    assert!(is_text(&name_col.values[0], "Alice"));
}

#[test]
fn test_access_path_metrics() {
    let mut db = setup_test_db();
    let user1_id = generate_id();
    let user2_id = generate_id();
    insert_user(&mut db, user1_id, "Alice", 30);
    insert_user(&mut db, user2_id, "Bob", 25);
    index_user_name(&mut db, user1_id, "Alice");
    index_user_name(&mut db, user2_id, "Bob");
    db.storage.flush().unwrap();

    let mut executor = QueryExecutor::with_metrics(&db.catalog, QueryCounters::new());
    let (hash0, btree0, columnar0, row0) = executor.counters().access_path_counts();

    let query = GraphQuery::new("User")
        .with_filter(FilterExpr::eq("name", Value::String("Alice".to_string())));
    executor.execute(&mut db.storage, &query).unwrap();
    let (hash1, btree1, columnar1, row1) = executor.counters().access_path_counts();
    assert_eq!(hash1, hash0 + 1);
    assert_eq!(btree1, btree0);
    assert_eq!(columnar1, columnar0);
    assert_eq!(row1, row0);

    assert!(db.storage.btree_index().is_some());
    let query = GraphQuery::new("User").with_filter(FilterExpr::gt("age", Value::Int32(20)));
    executor.execute(&mut db.storage, &query).unwrap();
    let (hash2, btree2, columnar2, row2) = executor.counters().access_path_counts();
    assert_eq!(hash2, hash1);
    assert_eq!(btree2, btree1 + 1);
    assert_eq!(columnar2, columnar1);
    assert_eq!(row2, row1);

    let query = GraphQuery::new("User").with_filter(FilterExpr::like("name", "A%"));
    executor.execute(&mut db.storage, &query).unwrap();
    let (hash3, btree3, columnar3, row3) = executor.counters().access_path_counts();
    assert_eq!(hash3, hash2);
    assert_eq!(btree3, btree2 + 1);
    assert_eq!(columnar3, columnar2);
    assert_eq!(row3, row2);

    let query = GraphQuery::new("User");
    executor.execute(&mut db.storage, &query).unwrap();
    let (hash4, btree4, columnar4, row4) = executor.counters().access_path_counts();
    assert_eq!(hash4, hash3);
    assert_eq!(btree4, btree3);
    assert_eq!(columnar4, columnar3);
    assert_eq!(row4, row3 + 1);
}

#[test]
fn unknown_types_and_relations_are_refused() {
    let mut db = setup_test_db();
    let mut executor = QueryExecutor::new(&db.catalog);
    let missing = executor.execute(&mut db.storage, &GraphQuery::new("Nobody"));
    assert!(matches!(missing, Err(DbError::InvalidData(s)) if s == "Entity 'Nobody' not found"));
    let query = GraphQuery::new("User").with_include(RelationInclude::new("friends"));
    let missing = executor.execute(&mut db.storage, &query);
    assert!(matches!(missing, Err(DbError::InvalidData(s)) if s == "Relation 'friends' not found"));
}

#[test]
fn a_budget_bounds_entities_and_edges() {
    let mut db = setup_test_db();
    let user_id = generate_id();
    insert_user(&mut db, user_id, "Alice", 30);
    insert_user(&mut db, generate_id(), "Bob", 25);
    insert_post(&mut db, generate_id(), "First", user_id);
    insert_post(&mut db, generate_id(), "Second", user_id);
    let mut executor = QueryExecutor::new(&db.catalog);

    let few = FanoutBudget { max_entities: 1, max_edges: 10, max_depth: 5 };
    assert!(executor.execute_with_budget(&mut db.storage, &GraphQuery::new("User"), few).is_err());

    let query = GraphQuery::new("User").with_include(RelationInclude::new("posts"));
    let few = FanoutBudget { max_entities: 10, max_edges: 1, max_depth: 5 };
    assert!(executor.execute_with_budget(&mut db.storage, &query, few).is_err());

    let enough = FanoutBudget { max_entities: 10, max_edges: 2, max_depth: 5 };
    assert!(executor.execute_with_budget(&mut db.storage, &query, enough).is_ok());
}

#[test]
fn rows_come_without_blocks() {
    let mut db = setup_test_db();
    insert_user(&mut db, generate_id(), "Alice", 30);
    insert_user(&mut db, generate_id(), "Bob", 25);
    let mut executor = QueryExecutor::new(&db.catalog);
    let query = GraphQuery::new("User")
        .with_order(OrderSpec::desc("age"))
        .with_pagination(Pagination::new(1, 0));
    let (rows, more) = executor.execute_rows(&mut db.storage, &query).unwrap();
    assert_eq!(rows.len(), 1);
    assert!(more);
    assert!(rows[0].fields.iter().any(|(n, v)| n == "name" && is_text(v, "Alice")));
}

#[test]
fn plans_can_be_kept_and_run_again() {
    let mut db = setup_test_db();
    insert_user(&mut db, generate_id(), "Alice", 30);
    let statistics = TableStatistics::new();
    let mut executor = QueryExecutor::new(&db.catalog);
    let query = GraphQuery::new("User");
    let mut cache = PlanCache::new(10);
    let first = executor
        .execute_with_cache(&mut db.storage, &query, &mut cache, Some(&statistics))
        .unwrap();
    assert_eq!(cache.len(), 1);
    let second = executor
        .execute_with_cache(&mut db.storage, &query, &mut cache, Some(&statistics))
        .unwrap();
    assert_eq!(cache.len(), 1);
    assert_eq!(first.entities[0].ids, second.entities[0].ids);
    let plan = plan_with_budget(&db.catalog, &query, FanoutBudget::default()).unwrap();
    let third = executor.execute_plan(&mut db.storage, &plan).unwrap();
    assert_eq!(first.entities[0].ids, third.entities[0].ids);
    let fourth =
        executor.execute_with_statistics(&mut db.storage, &query, &statistics).unwrap();
    assert_eq!(first.entities[0].ids, fourth.entities[0].ids);
}

fn reader() -> SecurityContext {
    SecurityContext {
        connection_id: "req-1".to_string(),
        client_id: "reader".to_string(),
        capabilities: vec!["read:*".to_string()],
        budget: FanoutBudget::default(),
        masks: vec![
            FieldMask {
                entity: "User".to_string(),
                field: "age".to_string(),
                rule: MaskRule::Omitted,
            },
            FieldMask {
                entity: "User".to_string(),
                field: "name".to_string(),
                rule: MaskRule::Masked(Value::String("***".to_string())),
            },
        ],
    }
}

#[test]
fn fields_are_masked_and_rows_are_filtered() {
    let mut db = setup_test_db();
    insert_user(&mut db, generate_id(), "Alice", 30);
    insert_user(&mut db, generate_id(), "Bob", 15);
    let context = reader();
    let policies = vec![RlsPolicy {
        entity: "User".to_string(),
        filter: FilterExpr::gt("age", Value::Int32(18)),
    }];
    let mut executor =
        QueryExecutor::new(&db.catalog).with_security(&context).with_policy_store(&policies);
    assert!(executor.has_security_context());
    let result = executor.execute(&mut db.storage, &GraphQuery::new("User")).unwrap();
    let block = &result.entities[0];
    assert_eq!(block.len(), 1);
    assert!(is_text(&block.column("name").unwrap().values[0], "***"));
    assert!(!block.column("age").is_some_and(|c| matches!(c.values[0], Value::Int32(_))));
}

#[test]
fn search_hits_are_fetched() {
    let mut db = setup_test_db();
    let near = generate_id();
    let far = generate_id();
    insert_user(&mut db, near, "Near", 1);
    insert_user(&mut db, far, "Far", 2);
    let search = FilterExpr::Search {
        field: "embedding".to_string(),
        search: SearchExpr::VectorNearestNeighbor {
            query_vector: vec![1.0f64.to_bits()],
            k: 10,
            max_distance: Some(1.0f64.to_bits()),
        },
    };
    let query = GraphQuery::new("User").with_filter(search);
    let hits = SearchHits {
        kind: SearchKind::Vector,
        hits: vec![(near, 0.5f64.to_bits()), (far, 2.0f64.to_bits())],
    };
    let mut executor = QueryExecutor::new(&db.catalog).with_hits(hits);
    let result = executor.execute(&mut db.storage, &query).unwrap();
    assert_eq!(result.entities[0].ids, vec![near]);

    // Without the index the search cannot be answered.
    let mut executor = QueryExecutor::new(&db.catalog);
    assert!(executor.execute(&mut db.storage, &query).is_err());
}

#[test]
fn later_commits_do_not_change_a_snapshot() {
    let mut db = setup_test_db();
    let id = generate_id();
    let fields = vec![
        ("id".to_string(), Value::Uuid(id)),
        ("name".to_string(), Value::String("Alice".to_string())),
    ];
    let data = encode_entity(&fields).unwrap();
    db.storage.put_typed("User", VersionedKey::new(id, 100), Record::new(data)).unwrap();
    db.storage.advance_watermark_to(150);
    let late = generate_id();
    let data = encode_entity(&vec![("id".to_string(), Value::Uuid(late))]).unwrap();
    db.storage.put_typed("User", VersionedKey::new(late, 200), Record::new(data)).unwrap();
    let mut executor = QueryExecutor::new(&db.catalog);
    let seen = executor.execute_snapshot(&mut db.storage, &GraphQuery::new("User")).unwrap();
    assert_eq!(seen.entities[0].ids, vec![id]);
    let all = executor.execute(&mut db.storage, &GraphQuery::new("User")).unwrap();
    assert_eq!(all.entities[0].len(), 2);
}

#[test]
fn more_rows_are_announced_without_an_order() {
    let mut db = setup_test_db();
    for i in 0..3 {
        insert_user(&mut db, generate_id(), &format!("User{}", i), 20 + i);
    }
    let mut executor = QueryExecutor::new(&db.catalog);
    let query = |limit: u32, offset: u32| {
        GraphQuery::new("User").with_pagination(Pagination::new(limit, offset))
    };
    let first = executor.execute(&mut db.storage, &query(2, 0)).unwrap();
    assert_eq!(first.entities[0].len(), 2);
    assert!(first.has_more);
    let last = executor.execute(&mut db.storage, &query(2, 2)).unwrap();
    assert_eq!(last.entities[0].len(), 1);
    assert!(!last.has_more);
    let all = executor.execute(&mut db.storage, &query(3, 0)).unwrap();
    assert_eq!(all.entities[0].len(), 3);
    assert!(!all.has_more);
    let filtered = query(1, 0).with_filter(FilterExpr::gt("age", Value::Int32(20)));
    let filtered = executor.execute(&mut db.storage, &filtered).unwrap();
    assert_eq!(filtered.entities[0].len(), 1);
    assert!(filtered.has_more);

    // The row that tells so does not count against the budget.
    let budget = FanoutBudget { max_entities: 2, max_edges: 10, max_depth: 5 };
    assert!(executor.execute_with_budget(&mut db.storage, &query(2, 0), budget).is_ok());
    assert!(executor.execute_with_budget(&mut db.storage, &query(3, 0), budget).is_err());
}

#[test]
fn related_rows_are_paged_for_each_parent_after_sorting() {
    let mut db = setup_test_db();
    let alice = generate_id();
    let bob = generate_id();
    insert_user(&mut db, alice, "Alice", 30);
    insert_user(&mut db, bob, "Bob", 25);
    for (title, author) in
        [("c", alice), ("z", bob), ("a", alice), ("y", bob), ("b", alice), ("x", bob)]
    {
        insert_post(&mut db, generate_id(), title, author);
    }
    let mut posts = RelationInclude::new("posts");
    posts.order_by = vec![OrderSpec::asc("title")];
    posts.pagination = Some(Pagination::new(2, 0));
    let query = GraphQuery::new("User").with_include(posts);
    let mut executor = QueryExecutor::new(&db.catalog);
    let result = executor.execute(&mut db.storage, &query).unwrap();
    let block = result.entities.iter().find(|b| b.entity == "Post").unwrap();
    let mut titles: Vec<String> = block
        .column("title")
        .unwrap()
        .values
        .iter()
        .map(|v| match v {
            Value::String(s) => s.clone(),
            other => panic!("unexpected title: {other:?}"),
        })
        .collect();
    titles.sort();
    assert_eq!(titles, ["a", "b", "x", "y"]);
}

#[test]
fn kept_plans_serve_other_conditions() {
    let mut db = setup_test_db();
    insert_user(&mut db, generate_id(), "Alice", 30);
    insert_user(&mut db, generate_id(), "Bob", 25);
    insert_user(&mut db, generate_id(), "Carol", 20);
    let mut executor = QueryExecutor::with_metrics(&db.catalog, QueryCounters::new());
    let older = |age: i32| {
        GraphQuery::new("User").with_filter(FilterExpr::gt("age", Value::Int32(age)))
    };
    let mut cache = PlanCache::new(1);
    let first =
        executor.execute_with_cache(&mut db.storage, &older(28), &mut cache, None).unwrap();
    assert_eq!(first.entities[0].len(), 1);
    let second =
        executor.execute_with_cache(&mut db.storage, &older(22), &mut cache, None).unwrap();
    assert_eq!(second.entities[0].len(), 2);
    let plain = executor.execute(&mut db.storage, &older(22)).unwrap();
    assert_eq!(second.entities[0].ids, plain.entities[0].ids);
    assert_eq!(executor.counters().cache_hits, 1);
    assert_eq!(executor.counters().cache_misses, 1);

    // A plan for another type is not used. The new one takes its room.
    let third = executor
        .execute_with_cache(&mut db.storage, &GraphQuery::new("Post"), &mut cache, None)
        .unwrap();
    assert_eq!(third.entities[0].entity, "Post");
    assert_eq!(executor.counters().cache_hits, 1);
    assert_eq!(executor.counters().cache_misses, 2);
    assert_eq!(cache.len(), 1);
    assert_eq!(cache.evictions(), 1);
    cache.clear();
    assert_eq!(cache.len(), 0);
}

#[test]
fn an_executor_stays_as_it_was_set_up() {
    let mut db = setup_test_db();
    let id = generate_id();
    let fields = vec![
        ("id".to_string(), Value::Uuid(id)),
        ("name".to_string(), Value::String("Alice".to_string())),
        ("age".to_string(), Value::Int32(30)),
    ];
    let data = encode_entity(&fields).unwrap();
    db.storage.put_typed("User", VersionedKey::new(id, 100), Record::new(data)).unwrap();
    let context = reader();
    let mut executor = QueryExecutor::new(&db.catalog).with_security(&context);
    let query = GraphQuery::new("User");
    let early = executor.execute_as_of(&mut db.storage, &query, 50).unwrap();
    assert_eq!(early.entities[0].len(), 0);
    let now = executor.execute(&mut db.storage, &query).unwrap();
    assert!(executor.has_security_context());
    assert!(is_text(&now.entities[0].column("name").unwrap().values[0], "***"));
}

#[test]
fn ways_count_although_the_budget_is_exceeded() {
    let mut db = setup_test_db();
    insert_user(&mut db, generate_id(), "Alice", 30);
    insert_user(&mut db, generate_id(), "Bob", 25);
    let mut executor = QueryExecutor::with_metrics(&db.catalog, QueryCounters::new());
    let budget = FanoutBudget { max_entities: 1, max_edges: 10, max_depth: 5 };
    let query = GraphQuery::new("User");
    assert!(executor.execute_with_budget(&mut db.storage, &query, budget).is_err());
    assert_eq!(executor.counters().access_path_counts(), (0, 0, 0, 1));
    assert_eq!(executor.counters().queries, 0);
}

#[test]
fn relations_from_nobody_lead_nowhere() {
    let mut db = setup_test_db();
    insert_post(&mut db, generate_id(), "orphan", generate_id());
    let mut executor = QueryExecutor::new(&db.catalog);
    let query = GraphQuery::new("User").with_include(RelationInclude::new("posts"));
    let result = executor.execute(&mut db.storage, &query).unwrap();
    assert_eq!(result.entities.len(), 1);
    assert!(result.entities[0].is_empty());
    assert!(result.edges.is_empty());
}

#[test]
fn searches_without_a_near_hit_find_nothing() {
    let mut db = setup_test_db();
    let far = generate_id();
    insert_user(&mut db, far, "Far", 2);
    let search = FilterExpr::Search {
        field: "embedding".to_string(),
        search: SearchExpr::VectorNearestNeighbor {
            query_vector: vec![1.0f64.to_bits()],
            k: 10,
            max_distance: Some(1.0f64.to_bits()),
        },
    };
    let hits = SearchHits { kind: SearchKind::Vector, hits: vec![(far, 2.0f64.to_bits())] };
    let mut executor = QueryExecutor::new(&db.catalog).with_hits(hits);
    let query = GraphQuery::new("User").with_filter(search);
    let result = executor.execute(&mut db.storage, &query).unwrap();
    assert!(result.entities[0].is_empty());
}
