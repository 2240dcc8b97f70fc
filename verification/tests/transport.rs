use ormdb::catalog::{EntityDef, FieldDef, FieldType, ScalarType, SchemaBundle};
use ormdb::server::database::Database;
use ormdb::server::error::{server_error_message, ServerError};
use ormdb::server::framing::{encode_frame, extract_payload, MAX_MESSAGE_SIZE};
use ormdb::server::handler::RequestHandler;
use ormdb::server::protocol::{ErrorCode, Operation, Request, Response, ResponsePayload, Status};
use ormdb::server::transport::{
    create_transport, is_slow, plan_transport, settle_exchange, Admission, ConnectionTracker, Exchange,
    RateLimitConfig, RateLimiter, Reading, TlsConfig, TransportConfig, TransportMetrics,
    TransportWorker, WireReply, PROTOCOL_VERSION,
};

fn setup_test_components() -> (tempfile::TempDir, Database, RequestHandler) {
    let dir = tempfile::tempdir().unwrap();
    let mut db = Database::open(dir.path().to_str().unwrap()).unwrap();
    let schema = SchemaBundle::new(1).with_entity(
        EntityDef::new("User", "id")
            .with_field(FieldDef::new("id", FieldType::Scalar(ScalarType::Uuid)))
            .with_field(FieldDef::new("name", FieldType::Scalar(ScalarType::String))),
    );
    db.catalog.apply_schema(schema);
    (dir, db, RequestHandler::new())
}

fn create_test_worker(handler: RequestHandler) -> TransportWorker {
    TransportWorker::new(
        handler,
        MAX_MESSAGE_SIZE,
        RateLimiter::disabled(),
        ConnectionTracker::new(10000, false),
    )
}

fn ping(id: u64) -> Request {
    Request::new(id, 0, Operation::Ping)
}

/// Stands for the encoding of a request: its number.
fn frame(id: u64) -> Vec<u8> {
    encode_frame(&id.to_be_bytes()).unwrap()
}

fn process(worker: &mut TransportWorker, db: &mut Database, data: &[u8]) -> (WireReply, bool) {
    match worker.let_in(data, 0, 0) {
        Admission::Rejected(response) => (WireReply::Response(response), false),
        Admission::Admitted(payload) => {
            let mut id = [0u8; 8];
            id.copy_from_slice(&payload);
            let request = ping(u64::from_be_bytes(id));
            let (reply, success, _) = worker.answer(db, Reading::Request(request));
            (reply, success)
        }
        Admission::Malformed(e, _) => worker.answer_malformed(db, e, None),
    }
}

fn response_of(reply: WireReply) -> Response {
    match reply {
        WireReply::Response(response) => response,
        WireReply::Handshake(_) => panic!("expected a response"),
    }
}

fn config() -> TransportConfig {
    TransportConfig {
        tcp_address: None,
        ipc_address: None,
        tls: TlsConfig { enabled: false, cert_path: None, key_path: None, ca_path: None },
        transport_workers: 4,
    }
}

#[test]
fn test_transport_creation() {
    let (dir, _db, _handler) = setup_test_components();
    let ipc_path = format!("ipc://{}", dir.path().join("ormdb.sock").display());
    let plan =
        create_transport(&TransportConfig { ipc_address: Some(ipc_path.clone()), ..config() });
    match plan {
        Ok(plan) => assert_eq!(plan.listen, vec![ipc_path]),
        Err(err) => panic!("transport creation failed: {}", server_error_message(&err)),
    }
}

#[test]
fn test_transport_requires_address() {
    let result = create_transport(&config());
    assert!(result.is_err());
}

#[test]
fn test_process_ping_message() {
    let (_dir, mut db, handler) = setup_test_components();
    let mut worker = create_test_worker(handler);

    let (reply, is_success) = process(&mut worker, &mut db, &frame(42));
    assert!(is_success);

    let response = response_of(reply);
    assert_eq!(response.id, 42);
    assert!(response.status.is_ok());
    assert!(matches!(response.payload, ResponsePayload::Pong));
}

#[test]
fn test_process_invalid_message() {
    let (_dir, mut db, handler) = setup_test_components();
    let mut worker = create_test_worker(handler);

    let (reply, is_success) = process(&mut worker, &mut db, b"invalid data");

    let response = response_of(reply);
    assert!(response.status.is_error());
    assert!(!is_success);
}

#[test]
fn test_rate_limiting() {
    let (_dir, mut db, handler) = setup_test_components();
    let rate_config = RateLimitConfig::new(1, 1);
    let mut worker = TransportWorker::new(
        handler,
        MAX_MESSAGE_SIZE,
        RateLimiter::new(&rate_config, 0),
        ConnectionTracker::new(10000, false),
    );

    let (_, is_success) = process(&mut worker, &mut db, &frame(1));
    assert!(is_success);

    let (reply, is_success) = process(&mut worker, &mut db, &frame(1));
    assert!(!is_success);
    match response_of(reply).status {
        Status::Error { code, message } => {
            assert_eq!(code, ErrorCode::BudgetExceeded);
            assert_eq!(message, "rate limit exceeded");
        }
        Status::Success => panic!("the request came too fast"),
    }

    assert!(worker.connection_tracker.rate_limited_count() >= 1);
}

#[test]
fn test_connection_limiting() {
    let (_dir, mut db, handler) = setup_test_components();
    let mut connection_tracker = ConnectionTracker::new(1, true);
    assert!(connection_tracker.try_acquire());
    let mut worker = TransportWorker::new(
        handler,
        MAX_MESSAGE_SIZE,
        RateLimiter::disabled(),
        connection_tracker,
    );

    let (_, is_success) = process(&mut worker, &mut db, &frame(1));
    assert!(!is_success);
    assert!(worker.connection_tracker.connection_rejected_count() >= 1);

    worker.connection_tracker.release();
    let (_, is_success) = process(&mut worker, &mut db, &frame(1));
    assert!(is_success);
    assert_eq!(worker.connection_tracker.active_connections(), 0);
}

#[test]
fn frames_hold_what_was_put_in() {
    let framed = encode_frame(&[1, 2, 3]).unwrap();
    assert_eq!(framed, vec![0, 0, 0, 3, 1, 2, 3]);
    assert_eq!(extract_payload(&framed).unwrap(), vec![1, 2, 3]);
    assert!(extract_payload(&framed[..6]).is_err());
    assert!(extract_payload(&[0, 0]).is_err());
    assert!(extract_payload(&encode_frame(&[]).unwrap()).unwrap().is_empty());
    assert!(encode_frame(&vec![0u8; MAX_MESSAGE_SIZE + 1]).is_err());
}

#[test]
fn long_messages_are_refused() {
    let (_dir, mut db, handler) = setup_test_components();
    let mut worker = create_test_worker(handler);
    worker.max_message_size = 5;
    let framed = encode_frame(&[1, 2, 3]).unwrap();
    match worker.let_in(&framed, 0, 0) {
        Admission::Malformed(e, payload) => {
            assert_eq!(
                server_error_message(&e),
                "protocol error: message too large: 7 bytes (max: 5)"
            );
            assert_eq!(payload, Some(vec![1, 2, 3]));
            let (reply, success) = worker.answer_malformed(&db, e, None);
            assert!(!success);
            assert!(response_of(reply).status.is_error());
        }
        _ => panic!("the message is too long"),
    }
    let (reply, success, _) =
        worker.answer(&mut db, Reading::Unreadable("out of bytes".to_string()));
    assert!(!success);
    match response_of(reply).status {
        Status::Error { message, .. } => assert_eq!(
            message,
            "protocol error: failed to deserialize request: out of bytes"
        ),
        Status::Success => panic!("there is no request"),
    }
}

#[test]
fn clients_introduce_themselves() {
    let (_dir, mut db, handler) = setup_test_components();
    let mut worker = create_test_worker(handler);
    let (reply, success, events) =
        worker.answer(&mut db, Reading::Handshake(PROTOCOL_VERSION));
    assert!(success);
    assert!(events.is_empty());
    match reply {
        WireReply::Handshake(h) => {
            assert!(h.accepted);
            assert_eq!(h.schema_version, 1);
            assert_eq!(h.text, "ormdb-server");
        }
        WireReply::Response(_) => panic!("expected a greeting"),
    }
    let e = ServerError::Protocol("whatever".to_string());
    match worker.answer_malformed(&db, e, Some(PROTOCOL_VERSION + 1)).0 {
        WireReply::Handshake(h) => {
            assert!(!h.accepted);
            assert_eq!(h.text, "incompatible protocol version: client=2 server=1");
        }
        WireReply::Response(_) => panic!("expected a greeting"),
    }
}

#[test]
fn exchanges_end_in_a_response() {
    let (reply, success) = settle_exchange(Exchange::Panicked, 30_000);
    assert!(!success);
    assert!(matches!(
        response_of(reply).status,
        Status::Error { code: ErrorCode::Internal, message } if message == "internal processing error"
    ));
    let (reply, success) = settle_exchange(Exchange::TimedOut, 30_000);
    assert!(!success);
    assert!(matches!(
        response_of(reply).status,
        Status::Error { code: ErrorCode::Timeout, message } if message == "request timed out after 30000ms"
    ));
    let done = Exchange::Done(WireReply::Response(Response::ok(5, ResponsePayload::Pong)), true);
    let (reply, success) = settle_exchange(done, 1);
    assert!(success);
    assert_eq!(response_of(reply).id, 5);
    assert!(is_slow(6, 10));
    assert!(!is_slow(5, 10));
}

#[test]
fn tls_needs_a_certificate_and_a_key() {
    let tls = |cert: Option<&str>, key: Option<&str>| TlsConfig {
        enabled: true,
        cert_path: cert.map(|s| s.to_string()),
        key_path: key.map(|s| s.to_string()),
        ca_path: Some("ca.pem".to_string()),
    };
    let base = |tls: TlsConfig| TransportConfig {
        tcp_address: Some("tcp://0.0.0.0:9000".to_string()),
        ipc_address: Some("ipc:///tmp/x".to_string()),
        tls,
        transport_workers: 0,
    };
    let alone = TransportConfig { tls: tls(None, None), ..config() };
    assert!(matches!(
        plan_transport(&alone),
        Err(ServerError::Config(s)) if s == "TLS enabled but certificate or key path not provided"
    ));
    assert!(matches!(
        create_transport(&alone),
        Err(ServerError::Config(s)) if s == "no transport configured (need TCP or IPC address)"
    ));
    let refused = plan_transport(&base(tls(Some("c.pem"), None)));
    assert!(matches!(
        refused,
        Err(ServerError::Config(s)) if s == "TLS enabled but certificate or key path not provided"
    ));
    let plan = plan_transport(&base(tls(Some("c.pem"), Some("k.pem")))).unwrap();
    assert_eq!(plan.cert_key, Some("c.pem:k.pem".to_string()));
    assert_eq!(plan.ca, Some("ca.pem".to_string()));
    assert_eq!(plan.listen, vec!["tls+tcp://0.0.0.0:9000", "ipc:///tmp/x"]);
    assert_eq!(plan.worker_count, 1);
}

#[test]
fn tokens_come_back_with_time() {
    let mut limiter = RateLimiter::new(&RateLimitConfig::new(10, 3), 0);
    assert_eq!(limiter.refill_rate(), 10);
    for _ in 0..3 {
        assert!(limiter.try_acquire(0, 0));
    }
    assert!(!limiter.try_acquire(0, 0));
    // Too early for tokens to come back.
    assert!(!limiter.try_acquire(999_999, 5));
    assert_eq!(limiter.elapsed(999_999), 999_999);
    // Never more than fit.
    for _ in 0..3 {
        assert!(limiter.try_acquire(1_000_000, 100) || limiter.try_acquire(1_000_000, 0));
    }
    assert_eq!(limiter.elapsed(1_000_000), 0);
    assert!(!limiter.try_acquire(1_000_000, 0));
    let mut open = RateLimiter::disabled();
    for _ in 0..10 {
        assert!(open.try_acquire(0, 0));
    }
}

#[test]
fn requests_are_counted() {
    let mut metrics = TransportMetrics::new(100);
    metrics.record_exchange(true, true, 10, 20);
    metrics.record_exchange(true, false, 1, 2);
    metrics.record_exchange(false, true, 5, 7);
    assert_eq!(metrics.total_requests(), 3);
    assert_eq!(metrics.successful_requests(), 1);
    assert_eq!(metrics.failed_requests(), 2);
    assert_eq!(metrics.total_bytes_received(), 16);
    assert_eq!(metrics.total_bytes_sent(), 22);
    assert_eq!(metrics.uptime(150), 50);
    assert_eq!(metrics.uptime(50), 0);
}

#[test]
fn no_more_requests_are_let_in_than_there_were_tokens() {
    let mut limiter = RateLimiter::new(&RateLimitConfig::new(10, 3), 0);
    let mut let_in = 0;
    let mut came_back = 0;
    for i in 1..50u64 {
        let now = i * 2_000_000;
        let new_tokens = i % 2;
        came_back += new_tokens;
        if limiter.try_acquire(now, new_tokens) {
            let_in += 1;
        }
        assert!(let_in <= 3 + came_back);
    }
    assert_eq!(let_in, 27);
}
