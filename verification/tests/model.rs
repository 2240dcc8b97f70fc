//! Values, keys, records, conditions and rows on concrete values.

use ormdb::catalog::{Catalog, EntityDef, SchemaBundle};
use ormdb::codec::{decode_entity, decode_entity_projected, encode_entity, Field};
use ormdb::error::DbError;
use ormdb::query::ast::{Edge, EntityRow, FanoutBudget, FilterExpr, OrderSpec, Pagination};
use ormdb::query::fetch::fulltext_limit;
use ormdb::query::filter::{
    combine_filters, evaluate, evaluate_optional, extract_filter_fields, extract_like_prefix,
    like_matches,
};
use ormdb::query::includes::JoinStrategy;
use ormdb::query::planner::{plan_with_budget, GraphQuery};
use ormdb::query::rows::{
    apply_pagination, apply_per_parent_pagination, build_entity_block, compare_rows, sort_rows,
    FieldMask, MaskRule,
};
use ormdb::query::statistics::TableStatistics;
use ormdb::security::{compile_policies, RlsPolicy, SecurityError};
use ormdb::server::changelog::{ChangeLog, ChangeLogEntry, ChangeType};
use ormdb::server::error::{
    security_error_message, server_error_message, store_error_message, ServerError,
};
use ormdb::storage::btree_index::{BTreeIndex, Bound};
use ormdb::storage::id_map::IdMap;
use ormdb::storage::index_ops::{plan_ops, IndexOp};
use ormdb::storage::key::VersionedKey;
use ormdb::storage::record::Record;
use ormdb::value::{compare_values, compare_values_opt, values_compare, Order, Value};

fn text(s: &str) -> Value {
    Value::String(s.to_string())
}

fn double(x: f64) -> Value {
    Value::Float64(x.to_bits())
}

fn field(name: &str, value: Value) -> Field {
    (name.to_string(), value)
}

fn row(n: u8, fields: Vec<Field>) -> EntityRow {
    EntityRow::new([n; 16], fields)
}

fn shown(rows: &[EntityRow]) -> Vec<u8> {
    rows.iter().map(|r| r.id[0]).collect()
}

#[test]
fn every_kind_of_value_is_read_back() {
    let fields = vec![
        field("null", Value::Null),
        field("bool", Value::Bool(true)),
        field("i32", Value::Int32(-5)),
        field("i64", Value::Int64(i64::MIN)),
        field("f64", double(2.5)),
        field("text", text("gr\u{fc}n")),
        field("bytes", Value::Bytes(vec![0, 255, 7])),
        field("time", Value::Timestamp(-1)),
        field("uuid", Value::Uuid([9; 16])),
        field("bools", Value::BoolArray(vec![true, false])),
        field("i32s", Value::Int32Array(vec![1, -1])),
        field("i64s", Value::Int64Array(vec![])),
        field("texts", Value::StringArray(vec!["a".to_string(), String::new()])),
        field("uuids", Value::UuidArray(vec![[1; 16], [2; 16]])),
    ];
    let bytes = encode_entity(&fields).unwrap();
    let back = decode_entity(&bytes).unwrap();
    assert_eq!(back.len(), fields.len());
    for (a, b) in fields.iter().zip(back.iter()) {
        assert_eq!(a.0, b.0);
        assert!(a.1.same(&b.1));
    }
    let names = vec!["uuid".to_string(), "i32".to_string()];
    let some = decode_entity_projected(&bytes, &names).unwrap();
    assert_eq!(some.len(), 2);
    assert!(some.iter().any(|f| f.0 == "i32" && f.1.same(&Value::Int32(-5))));
    assert!(matches!(
        decode_entity(&bytes[..bytes.len() - 1]),
        Err(DbError::InvalidData(_))
    ));
}

#[test]
fn keys_sort_by_entity_and_time() {
    let key = VersionedKey::new([7; 16], 300);
    let bytes = key.encode();
    let mut expected = vec![7u8; 16];
    expected.extend_from_slice(&[0, 0, 0, 0, 0, 0, 1, 44]);
    assert_eq!(bytes, expected);
    let back = VersionedKey::decode(&bytes).unwrap();
    assert_eq!(back.entity_id, [7; 16]);
    assert_eq!(back.version_ts, 300);
    assert!(VersionedKey::decode(&bytes[1..]).is_none());
    assert!(VersionedKey::new([7; 16], 299).encode() < bytes);
    assert!(VersionedKey::max_for_entity([7; 16]).encode() > bytes);
    assert!(VersionedKey::min_for_entity([7; 16]).encode() < bytes);
    assert!(VersionedKey::max_for_entity([6; 16]).encode() < bytes);
}

#[test]
fn records_are_read_back() {
    let live = Record::new(vec![1, 2, 3]);
    let back = Record::from_bytes(&live.to_bytes()).unwrap();
    assert_eq!(back.data, vec![1, 2, 3]);
    assert!(!back.deleted);
    let gone = Record::from_bytes(&Record::tombstone().to_bytes()).unwrap();
    assert!(gone.deleted);
    assert!(Record::from_bytes(&[]).is_err());
}

#[test]
fn values_have_an_order() {
    assert_eq!(compare_values(&Value::Null, &Value::Int32(-9)), Order::Less);
    assert_eq!(compare_values(&Value::Int32(3), &Value::Int64(2)), Order::Greater);
    assert_eq!(compare_values(&double(-1.5), &double(0.0)), Order::Less);
    assert_eq!(compare_values(&double(0.0), &double(-0.0)), Order::Equal);
    assert_eq!(compare_values(&text("ab"), &text("b")), Order::Less);
    assert_eq!(compare_values(&text("1"), &Value::Int32(1)), Order::Equal);
    assert!(!values_compare(&text("1"), &Value::Int32(1)));
    assert!(!values_compare(&double(f64::NAN), &double(1.0)));
    assert_eq!(compare_values_opt(None, Some(&Value::Null)), Order::Less);
    assert_eq!(Order::Less.reverse(), Order::Greater);
}

#[test]
fn patterns_match_texts() {
    assert!(like_matches("Alice", "A%"));
    assert!(like_matches("Alice", "%lic%"));
    assert!(like_matches("Alice", "_lice"));
    assert!(!like_matches("Alice", "_"));
    assert!(!like_matches("alice", "A%"));
    assert!(like_matches("", "%"));
    assert!(!like_matches("x", ""));
    assert_eq!(extract_like_prefix("Al%"), Some("Al".to_string()));
    assert_eq!(extract_like_prefix("%x"), None);
    assert_eq!(extract_like_prefix("A_c%"), None);
}

#[test]
fn conditions_are_combined() {
    let fields = vec![field("age", Value::Int32(30)), field("name", text("Ann"))];
    let old = FilterExpr::gt("age", Value::Int32(20));
    let ann = FilterExpr::eq("name", text("Ann"));
    let bob = FilterExpr::eq("name", text("Bob"));
    assert!(evaluate(&old, &fields).unwrap());
    assert!(!evaluate(&bob, &fields).unwrap());
    let both = combine_filters(Some(old.copy()), Some(ann)).unwrap();
    assert!(evaluate(&both, &fields).unwrap());
    assert_eq!(extract_filter_fields(&both), vec!["age".to_string(), "name".to_string()]);
    let neither = combine_filters(Some(old), Some(bob));
    assert!(!evaluate_optional(&neither, &fields).unwrap());
    assert!(combine_filters(None, None).is_none());
    assert!(evaluate_optional(&None, &fields).unwrap());
}

#[test]
fn policies_for_a_type_are_combined() {
    let policies = vec![
        RlsPolicy { entity: "User".to_string(), filter: FilterExpr::gt("age", Value::Int32(20)) },
        RlsPolicy { entity: "Post".to_string(), filter: FilterExpr::eq("open", Value::Bool(true)) },
        RlsPolicy { entity: "User".to_string(), filter: FilterExpr::eq("name", text("Ann")) },
    ];
    let users = compile_policies(&policies, "User").unwrap();
    let ann = vec![field("age", Value::Int32(30)), field("name", text("Ann"))];
    let young = vec![field("age", Value::Int32(10)), field("name", text("Ann"))];
    assert!(evaluate(&users, &ann).unwrap());
    assert!(!evaluate(&users, &young).unwrap());
    assert!(compile_policies(&policies, "Comment").is_none());
}

#[test]
fn sorting_keeps_the_order_of_equals() {
    let mut rows = vec![
        row(1, vec![field("age", Value::Int32(30))]),
        row(2, vec![field("age", Value::Int32(20))]),
        row(3, vec![field("age", Value::Int32(30))]),
        row(4, vec![]),
    ];
    sort_rows(&mut rows, &[OrderSpec::asc("age")]);
    assert_eq!(shown(&rows), vec![4, 2, 1, 3]);
    sort_rows(&mut rows, &[OrderSpec::desc("age")]);
    assert_eq!(shown(&rows), vec![1, 3, 2, 4]);
    sort_rows(&mut rows, &[]);
    assert_eq!(shown(&rows), vec![1, 3, 2, 4]);
    let by_age = [OrderSpec::asc("age")];
    assert_eq!(compare_rows(&rows[2], &rows[0], &by_age), Order::Less);
    assert_eq!(compare_rows(&rows[0], &rows[2], &by_age), Order::Greater);
}

#[test]
fn pages_cover_all_rows() {
    let all = || (1..=5u8).map(|n| row(n, vec![])).collect::<Vec<EntityRow>>();
    let mut seen = Vec::new();
    for (offset, more) in [(0u32, true), (2, true), (4, false)] {
        let mut rows = all();
        assert_eq!(apply_pagination(&mut rows, &Some(Pagination::new(2, offset))), more);
        assert!(rows.len() <= 2);
        seen.extend(shown(&rows));
    }
    assert_eq!(seen, vec![1, 2, 3, 4, 5]);
    let mut beyond = all();
    assert!(!apply_pagination(&mut beyond, &Some(Pagination::new(2, 9))));
    assert!(beyond.is_empty());
    let mut rest = all();
    assert!(!apply_pagination(&mut rest, &None));
    assert_eq!(rest.len(), 5);
}

#[test]
fn each_source_has_its_own_page() {
    let rows: Vec<EntityRow> = (1..=4u8).map(|n| row(n, vec![])).collect();
    let edge = |from: u8, to: u8| Edge { from_id: [from; 16], to_id: [to; 16] };
    let edges = vec![edge(10, 1), edge(20, 2), edge(10, 3), edge(10, 4)];
    let (kept, kept_edges) = apply_per_parent_pagination(&rows, &edges, &Pagination::new(2, 0));
    let pairs: Vec<(u8, u8)> = kept_edges.iter().map(|e| (e.from_id[0], e.to_id[0])).collect();
    assert_eq!(pairs.iter().filter(|p| p.0 == 10).count(), 2);
    assert!(pairs.contains(&(20, 2)));
    assert!(!pairs.contains(&(10, 4)));
    assert_eq!(kept.len(), 3);
}

#[test]
fn blocks_hide_what_is_masked() {
    let rows = vec![
        row(1, vec![field("name", text("Ann")), field("mail", text("a@x")), field("pin", text("1"))]),
        row(2, vec![field("name", text("Bob"))]),
    ];
    let masks = vec![
        FieldMask {
            entity: "User".to_string(),
            field: "mail".to_string(),
            rule: MaskRule::Masked(text("***")),
        },
        FieldMask { entity: "User".to_string(), field: "pin".to_string(), rule: MaskRule::Omitted },
    ];
    let block = build_entity_block("User", &rows, &[], &masks);
    assert_eq!(block.ids, vec![[1; 16], [2; 16]]);
    assert!(block.column("pin").is_none());
    let mail = block.column("mail").unwrap();
    assert!(mail.values[0].same(&text("***")));
    assert!(mail.values[1].is_null());
    let name = block.column("name").unwrap();
    assert!(name.values[0].same(&text("Ann")));
    let open = build_entity_block("Other", &rows, &["pin".to_string()], &masks);
    assert!(open.column("pin").unwrap().values[0].same(&text("1")));
    assert_eq!(open.columns.len(), 1);
}

#[test]
fn large_joins_are_hashed() {
    assert_eq!(JoinStrategy::select(100, 1000), JoinStrategy::NestedLoop);
    assert_eq!(JoinStrategy::select(101, 0), JoinStrategy::HashJoin);
    assert_eq!(JoinStrategy::select(0, 1001), JoinStrategy::HashJoin);
}

#[test]
fn entities_are_counted_by_type() {
    let mut s = TableStatistics::new();
    s.increment("User");
    s.increment("User");
    s.increment("Post");
    s.decrement("User");
    assert_eq!(s.count("User"), Some(1));
    assert_eq!(s.count("Post"), Some(1));
    assert_eq!(s.count("Comment"), None);
    s.decrement("Post");
    s.decrement("Post");
    assert_eq!(s.count("Post"), Some(0));
}

#[test]
fn ordered_indexes_answer_bounds() {
    let mut index = BTreeIndex::new();
    for (n, age) in [(1u8, 10), (2, 20), (3, 20), (4, 30)] {
        index.insert("User", "age", &Value::Int32(age), [n; 16]);
    }
    let ids = |b: Bound| {
        let mut out: Vec<u8> = index.scan("User", "age", &b).iter().map(|i| i[0]).collect();
        out.sort();
        out
    };
    assert_eq!(ids(Bound::Equal(Value::Int32(20))), vec![2, 3]);
    assert_eq!(ids(Bound::Greater(Value::Int32(20))), vec![4]);
    assert_eq!(ids(Bound::GreaterEqual(Value::Int32(20))), vec![2, 3, 4]);
    assert_eq!(ids(Bound::Less(Value::Int32(20))), vec![1]);
    assert_eq!(ids(Bound::LessEqual(Value::Int32(20))), vec![1, 2, 3]);
    assert_eq!(ids(Bound::All), vec![1, 2, 3, 4]);
    assert!(index.scan("Post", "age", &Bound::All).is_empty());
    index.remove("User", "age", &Value::Int32(20), [2; 16]);
    assert_eq!(index.scan_equal("User", "age", &Value::Int32(20)), vec![[3; 16]]);
    index.drop_column_index("User", "age");
    assert!(index.scan("User", "age", &Bound::All).is_empty());
}

#[test]
fn indexes_change_where_fields_do() {
    let before = vec![field("name", text("Ann")), field("age", Value::Int32(1))];
    let after = vec![field("name", text("Bob")), field("age", Value::Int32(1))];
    let names = vec!["name".to_string(), "age".to_string()];
    let ops = plan_ops(&names, &before, &after);
    assert_eq!(ops.len(), 2);
    assert!(matches!(&ops[0], IndexOp::Remove(n, v) if n == "name" && v.same(&text("Ann"))));
    assert!(matches!(&ops[1], IndexOp::Insert(n, v) if n == "name" && v.same(&text("Bob"))));
    assert!(plan_ops(&names, &before, &before).is_empty());
}

#[test]
fn a_map_keeps_the_last_value() {
    let mut m: IdMap<u32> = IdMap::new();
    m.insert([1; 16], 5);
    m.insert([2; 16], 6);
    m.insert([1; 16], 7);
    assert_eq!(m.len(), 2);
    assert_eq!(m.get(&[1; 16]), Some(&7));
    assert_eq!(m.get(&[3; 16]), None);
}

fn change(entity_type: &str) -> ChangeLogEntry {
    ChangeLogEntry {
        lsn: 0,
        timestamp: 1,
        entity_type: entity_type.to_string(),
        entity_id: [0; 16],
        change_type: ChangeType::Insert,
        before_data: None,
        after_data: Some(vec![1]),
        changed_fields: vec![],
        schema_version: 1,
    }
}

#[test]
fn the_log_is_read_by_type() {
    let mut log = ChangeLog::new();
    for t in ["User", "Post", "User", "Post"] {
        log.append(change(t));
    }
    assert_eq!(log.current_lsn(), 4);
    let (all, more) = log.scan_batch(2, 2);
    assert_eq!(all.iter().map(|e| e.lsn).collect::<Vec<u64>>(), vec![2, 3]);
    assert!(more);
    let posts = vec!["Post".to_string()];
    let (some, more) = log.scan_filtered(1, 10, Some(&posts));
    assert_eq!(some.iter().map(|e| e.lsn).collect::<Vec<u64>>(), vec![2, 4]);
    assert!(!more);
}

#[test]
fn errors_have_texts() {
    assert_eq!(store_error_message(&DbError::InvalidKey), "invalid key");
    assert_eq!(
        store_error_message(&DbError::TransactionConflict {
            entity_id: [0xab; 16],
            expected: 1,
            actual: 20,
        }),
        "transaction conflict on entity abababababababababababababababab: expected version 1, actual version 20"
    );
    let named = |s: &str| s.to_string();
    let cases = [
        (SecurityError::AuthenticationFailed(named("x")), "authentication failed: x"),
        (SecurityError::PermissionDenied(named("x")), "permission denied: x"),
        (SecurityError::CapabilityNotGranted(named("x")), "capability not granted: x"),
        (SecurityError::RlsViolation(named("x")), "row-level security violation: x"),
        (
            SecurityError::FieldAccessDenied { entity: named("User"), field: named("pin") },
            "field access denied: User.pin",
        ),
        (SecurityError::InvalidCapabilityFormat(named("x")), "invalid capability format: x"),
        (SecurityError::BudgetExceeded(named("x")), "budget exceeded: x"),
        (SecurityError::InvalidContext(named("x")), "invalid security context: x"),
        (SecurityError::PolicyCompilationError(named("x")), "policy compilation error: x"),
        (SecurityError::AuditError(named("x")), "audit error: x"),
        (SecurityError::Storage(named("x")), "security storage error: x"),
    ];
    for (e, s) in cases {
        assert_eq!(security_error_message(&e), s);
    }
    assert_eq!(
        server_error_message(&ServerError::Storage(DbError::InvalidData(named("short")))),
        "storage error: invalid data: short"
    );
    assert_eq!(
        server_error_message(&ServerError::Security(SecurityError::PermissionDenied(named("x")))),
        "security error: permission denied: x"
    );
    assert_eq!(server_error_message(&ServerError::Config(named("x"))), "configuration error: x");
}

#[test]
fn text_indexes_are_asked_for_a_page() {
    let mut catalog = Catalog::new();
    catalog.apply_schema(SchemaBundle::new(1).with_entity(EntityDef::new("User", "id")));
    let budget = FanoutBudget { max_entities: 10, max_edges: 10, max_depth: 3 };
    let plan = plan_with_budget(&catalog, &GraphQuery::new("User"), budget).unwrap();
    assert_eq!(fulltext_limit(&plan), 1000);
    let query = GraphQuery::new("User").with_pagination(Pagination::new(10, 20));
    let plan = plan_with_budget(&catalog, &query, budget).unwrap();
    assert_eq!(fulltext_limit(&plan), 30);
    let query = GraphQuery::new("Ghost");
    assert!(matches!(plan_with_budget(&catalog, &query, budget), Err(DbError::InvalidData(_))));
}
