use ormdb::gateway::base64::base64_encode;
use ormdb::gateway::hex::{hex_to_uuid, uuid_to_hex};
use ormdb::gateway::json::{put_member, value_to_json, Json};
use ormdb::gateway::response::{
    MutationResponse, QueryResponse, ReplicationStatusResponse, SuccessResponse,
};
use ormdb::query::ast::{ColumnData, Edge, EdgeBlock, EntityBlock, QueryResult};
use ormdb::server::mutation::MutationResult;
use ormdb::server::protocol::{ReplicationRole, ReplicationStatus};
use ormdb::value::Value;

/// A plain notation for comparison.
fn shown(j: &Json) -> String {
    match j {
        Json::Null => "null".to_string(),
        Json::Bool(b) => format!("{b}"),
        Json::Number(n) => format!("{n}"),
        Json::Float(bits) => format!("{:?}", f64::from_bits(*bits)),
        Json::Text(s) => format!("{s:?}"),
        Json::Array(a) => format!("[{}]", a.iter().map(shown).collect::<Vec<_>>().join(",")),
        Json::Object(m) => format!(
            "{{{}}}",
            m.iter().map(|(k, v)| format!("{k:?}:{}", shown(v))).collect::<Vec<_>>().join(",")
        ),
    }
}

#[test]
fn identifiers_are_written_and_read() {
    let id = [0, 1, 15, 16, 127, 128, 200, 255, 1, 2, 3, 4, 5, 6, 7, 8];
    let hex = uuid_to_hex(&id);
    assert_eq!(hex, "00010f107f80c8ff0102030405060708");
    assert_eq!(hex_to_uuid(&hex), Ok(id));
    assert_eq!(hex_to_uuid(&hex.to_uppercase()), Ok(id));
    assert_eq!(hex_to_uuid("abc"), Err("Invalid UUID hex string length".to_string()));
    assert_eq!(
        hex_to_uuid("zz010f107f80c8ff0102030405060708"),
        Err("invalid digit found in string".to_string())
    );
    assert!(hex_to_uuid("é010f107f80c8ff010203040506070é").is_err());
}

#[test]
fn bytes_are_written_in_base64() {
    assert_eq!(base64_encode(b""), "");
    assert_eq!(base64_encode(b"f"), "Zg==");
    assert_eq!(base64_encode(b"fo"), "Zm8=");
    assert_eq!(base64_encode(b"foo"), "Zm9v");
    assert_eq!(base64_encode(b"foobar"), "Zm9vYmFy");
    assert_eq!(base64_encode(&[251, 255, 191]), "+/+/");
}

#[test]
fn base64_is_filled_up_at_its_end() {
    for n in 0..20usize {
        let data: Vec<u8> = (0..n as u8).collect();
        let written = base64_encode(&data);
        assert_eq!(written.len(), n.div_ceil(3) * 4);
        let filled = written.len() - written.trim_end_matches('=').len();
        assert_eq!(filled, (3 - n % 3) % 3);
        assert!(!written.trim_end_matches('=').contains('='));
    }
    let joined = base64_encode(b"foo") + &base64_encode(b"ba");
    assert_eq!(base64_encode(b"fooba"), joined);
}

#[test]
fn values_are_written_for_clients() {
    let f = |x: f64| x.to_bits();
    let expected = [
        (Value::Null, "null"),
        (Value::Bool(true), "true"),
        (Value::Int32(-3), "-3"),
        (Value::Int64(i64::MIN), "-9223372036854775808"),
        (Value::Float32(f(0.5)), "0.5"),
        (Value::Float64(f(f64::NAN)), "null"),
        (Value::Float64(f(f64::INFINITY)), "null"),
        (Value::Float64(f(-1.25)), "-1.25"),
        (Value::String("a".to_string()), "\"a\""),
        (Value::Bytes(vec![1, 2]), "\"AQI=\""),
        (Value::Timestamp(9), "9"),
        (Value::Uuid([0; 16]), "\"00000000000000000000000000000000\""),
        (Value::BoolArray(vec![true, false]), "[true,false]"),
        (Value::Int32Array(vec![1, -2]), "[1,-2]"),
        (Value::Int64Array(vec![3]), "[3]"),
        (Value::Float32Array(vec![f(1.0)]), "[1.0]"),
        (Value::Float64Array(vec![f(2.0), f(f64::NAN)]), "[2.0,null]"),
        (Value::StringArray(vec!["x".to_string()]), "[\"x\"]"),
        (
            Value::UuidArray(vec![[255; 16]]),
            "[\"ffffffffffffffffffffffffffffffff\"]",
        ),
        (Value::Vector(vec![f(0.25)]), "[0.25]"),
        (Value::GeoPoint { lat: f(1.0), lon: f(2.0) }, "{\"lat\":1.0,\"lon\":2.0}"),
        (
            Value::GeoPolygon(vec![(f(1.0), f(2.0))]),
            "[{\"lat\":1.0,\"lon\":2.0}]",
        ),
    ];
    for (value, text) in expected {
        assert_eq!(shown(&value_to_json(&value)), text);
    }
}

#[test]
fn members_are_put_by_name() {
    let mut m = Vec::new();
    put_member(&mut m, "a".to_string(), Json::Number(1));
    put_member(&mut m, "b".to_string(), Json::Number(2));
    put_member(&mut m, "a".to_string(), Json::Number(3));
    assert_eq!(shown(&Json::Object(m)), "{\"a\":3,\"b\":2}");
}

#[test]
fn query_results_are_written_for_clients() {
    let result = QueryResult {
        entities: vec![
            EntityBlock {
                entity: "User".to_string(),
                ids: vec![[1; 16], [2; 16]],
                columns: vec![ColumnData {
                    name: "name".to_string(),
                    values: vec![Value::String("A".to_string()), Value::Null],
                }],
            },
            EntityBlock {
                entity: "Post".to_string(),
                ids: vec![[3; 16]],
                columns: vec![ColumnData { name: "id".to_string(), values: vec![Value::Int32(5)] }],
            },
        ],
        edges: vec![EdgeBlock {
            relation: "posts".to_string(),
            edges: vec![Edge { from_id: [1; 16], to_id: [3; 16] }],
        }],
        has_more: true,
    };
    let r = QueryResponse::from_result(&result);
    assert!(r.success);
    assert_eq!(r.meta.total_entities, 3);
    assert_eq!(r.meta.total_edges, 1);
    assert!(r.meta.has_more);
    assert_eq!(r.data.entities[0].entity, "User");
    assert_eq!(
        shown(&r.data.entities[0].rows[0]),
        "{\"id\":\"01010101010101010101010101010101\",\"name\":\"A\"}"
    );
    assert_eq!(
        shown(&r.data.entities[0].rows[1]),
        "{\"id\":\"02020202020202020202020202020202\",\"name\":null}"
    );
    assert_eq!(shown(&r.data.entities[1].rows[0]), "{\"id\":5}");
    assert_eq!(r.data.edges[0].relation, "posts");
    assert_eq!(r.data.edges[0].edges[0].from_id, "01010101010101010101010101010101");
    assert_eq!(r.data.edges[0].edges[0].to_id, "03030303030303030303030303030303");
}

#[test]
fn other_results_are_written_for_clients() {
    let r = MutationResponse::from_result(&MutationResult::bulk_inserted(vec![[0; 16], [255; 16]]));
    assert!(r.success);
    assert_eq!(r.affected, 2);
    assert_eq!(r.inserted_ids[1], "ffffffffffffffffffffffffffffffff");
    let status = ReplicationStatus {
        role: ReplicationRole::Replica { primary_addr: "a:1".to_string() },
        current_lsn: 4,
        lag_entries: 5,
        lag_ms: 6,
    };
    let r = ReplicationStatusResponse::from_status(&status);
    assert_eq!(r.data.role, "replica");
    assert_eq!(r.data.primary_addr, Some("a:1".to_string()));
    assert_eq!(r.data.lag_entries, 5);
    let alone = ReplicationStatus {
        role: ReplicationRole::Standalone,
        current_lsn: 0,
        lag_entries: 0,
        lag_ms: 0,
    };
    assert_eq!(ReplicationStatusResponse::from_status(&alone).data.role, "standalone");
    let first = ReplicationStatus { role: ReplicationRole::Primary, ..alone };
    assert_eq!(ReplicationStatusResponse::from_status(&first).data.role, "primary");
    let s = SuccessResponse::new(7);
    assert!(s.success);
    assert_eq!(s.data, 7);
}
