//! Requests and responses.

use vstd::prelude::*;

use crate::catalog::{SchemaBundle, SchemaView};
use crate::query::ast::{FilterExpr, PlanView, QueryPlan, QueryResult, ResultView};
use crate::query::planner::GraphQuery;
use crate::server::changelog::{changes_view, ChangeLogEntry, ChangeView};
use crate::server::mutation::{Mutation, MutationBatch, MutationResult, MutationResultView};

verus! {

/// Why a request was not answered.
#[derive(Debug, Clone, Copy, PartialEq, Eq, Structural)]
pub enum ErrorCode {
    /// Something failed in the server.
    Internal,
    /// What was asked for is not there.
    NotFound,
    /// The request cannot be answered as it is.
    InvalidRequest,
    /// The client is not known.
    AuthenticationFailed,
    /// The client may not do this.
    PermissionDenied,
    /// The request asks for too much.
    BudgetExceeded,
    /// The client has another version of the schema.
    SchemaMismatch,
    /// The request took too long.
    Timeout,
}

/// A query for the number of entities.
#[derive(Debug)]
pub struct AggregateQuery {
    /// The entity type.
    pub root_entity: String,
    /// The condition on the entities.
    pub filter: Option<FilterExpr>,
}

/// A request for changes.
#[derive(Debug)]
pub struct StreamChangesRequest {
    /// The first change that is wanted.
    pub from_lsn: u64,
    /// How many are wanted at most.
    pub batch_size: u32,
    /// The entity types that are wanted; all where there are none.
    pub entity_filter: Option<Vec<String>>,
}

/// What is asked for.
#[derive(Debug)]
pub enum Operation {
    /// Entities and what they are related to.
    Query(GraphQuery),
    /// A change.
    Mutate(Mutation),
    /// Several changes.
    MutateBatch(MutationBatch),
    /// The schema.
    GetSchema,
    /// A sign of life.
    Ping,
    /// How a query would be answered.
    Explain(GraphQuery),
    /// What the server has done.
    GetMetrics,
    /// A number.
    Aggregate(AggregateQuery),
    /// To be told of changes.
    Subscribe,
    /// To be told no longer.
    Unsubscribe,
    /// The changes since a point.
    StreamChanges(StreamChangesRequest),
    /// How replication stands.
    GetReplicationStatus,
    /// To put a schema in force.
    ApplySchema(SchemaBundle),
}

/// A request.
#[derive(Debug)]
pub struct Request {
    /// Its number, which the response repeats.
    pub id: u64,
    /// The version of the schema that the client has; 0 for any.
    pub schema_version: u64,
    /// The client.
    pub client_id: Option<String>,
    /// What the client shows.
    pub credentials: Option<String>,
    /// What is asked for.
    pub operation: Operation,
}

impl Request {
    /// A request without credentials.
    pub fn new(id: u64, schema_version: u64, operation: Operation) -> (r: Request)
        ensures
            r.id == id,
            r.schema_version == schema_version,
            r.client_id is None,
            r.credentials is None,
            r.operation == operation,
    {
        Request { id, schema_version, client_id: None, credentials: None, operation }
    }

    /// The request with credentials.
    pub fn with_credentials(self, credentials: &str) -> (r: Request)
        ensures
            r.credentials matches Some(c) && c@ == credentials@,
            r.id == self.id,
            r.schema_version == self.schema_version,
            r.client_id == self.client_id,
            r.operation == self.operation,
    {
        Request { credentials: Some(credentials.to_owned()), ..self }
    }
}

/// Whether a request was answered.
#[derive(Debug)]
pub enum Status {
    /// It was.
    Success,
    /// It was not.
    Error {
        /// Why.
        code: ErrorCode,
        /// In words.
        message: String,
    },
}

/// Whether a request was answered, in mathematical terms.
pub ghost enum StatusView {
    /// See [`Status::Success`].
    Success,
    /// See [`Status::Error`].
    Error(ErrorCode, Seq<char>),
}

impl View for Status {
    type V = StatusView;

    open spec fn view(&self) -> StatusView {
        match *self {
            Status::Success => StatusView::Success,
            Status::Error { code, message } => StatusView::Error(code, message@),
        }
    }
}

impl Status {
    /// Whether the request was answered.
    pub fn is_ok(&self) -> (r: bool)
        ensures
            r == (self@ is Success),
    {
        match self {
            Status::Success => true,
            Status::Error { .. } => false,
        }
    }

    /// Whether the request was not answered.
    pub fn is_error(&self) -> (r: bool)
        ensures
            r == (self@ is Error),
    {
        !self.is_ok()
    }
}

/// What a server has counted.
#[derive(Debug, Clone, Copy, PartialEq, Eq, Structural)]
pub struct RegistrySnapshot {
    /// How long it has run, in seconds.
    pub uptime_secs: u64,
    /// How many queries it has answered.
    pub query_count: u64,
    /// How long they took together, in microseconds.
    pub total_query_us: u64,
    /// How long they took on average, in microseconds.
    pub avg_query_us: u64,
    /// How long half of them took at most.
    pub p50_query_us: u64,
    /// How long all but one in a hundred took at most.
    pub p99_query_us: u64,
    /// How long the longest took.
    pub max_query_us: u64,
    /// How many mutations it has made.
    pub mutation_count: u64,
    /// How many of them were insertions.
    pub inserts: u64,
    /// How many of them were updates.
    pub updates: u64,
    /// How many of them were deletions.
    pub deletes: u64,
    /// How many of them were upserts.
    pub upserts: u64,
    /// How many entities they changed.
    pub rows_affected: u64,
    /// How often a plan was at hand.
    pub cache_hits: u64,
    /// How often a plan had to be made.
    pub cache_misses: u64,
    /// How often a plan had to make room.
    pub cache_evictions: u64,
    /// How many plans are at hand.
    pub cache_size: u64,
}

impl Default for RegistrySnapshot {
    fn default() -> (s: RegistrySnapshot)
        ensures
            s == empty_snapshot(),
    {
        RegistrySnapshot {
            uptime_secs: 0,
            query_count: 0,
            total_query_us: 0,
            avg_query_us: 0,
            p50_query_us: 0,
            p99_query_us: 0,
            max_query_us: 0,
            mutation_count: 0,
            inserts: 0,
            updates: 0,
            deletes: 0,
            upserts: 0,
            rows_affected: 0,
            cache_hits: 0,
            cache_misses: 0,
            cache_evictions: 0,
            cache_size: 0,
        }
    }
}

/// Nothing has been counted.
pub open spec fn empty_snapshot() -> RegistrySnapshot {
    RegistrySnapshot {
        uptime_secs: 0,
        query_count: 0,
        total_query_us: 0,
        avg_query_us: 0,
        p50_query_us: 0,
        p99_query_us: 0,
        max_query_us: 0,
        mutation_count: 0,
        inserts: 0,
        updates: 0,
        deletes: 0,
        upserts: 0,
        rows_affected: 0,
        cache_hits: 0,
        cache_misses: 0,
        cache_evictions: 0,
        cache_size: 0,
    }
}

/// What has been counted with one more query, which took so many microseconds.
pub open spec fn with_query(s: RegistrySnapshot, duration_us: u64) -> RegistrySnapshot {
    let count = if s.query_count < u64::MAX {
        (s.query_count + 1) as u64
    } else {
        s.query_count
    };
    let total = if s.total_query_us + duration_us <= u64::MAX {
        (s.total_query_us + duration_us) as u64
    } else {
        u64::MAX
    };
    RegistrySnapshot {
        query_count: count,
        total_query_us: total,
        avg_query_us: (total as int / count as int) as u64,
        max_query_us: if duration_us > s.max_query_us {
            duration_us
        } else {
            s.max_query_us
        },
        ..s
    }
}

impl RegistrySnapshot {
    /// Counts a query.
    pub fn record_query(self, duration_us: u64) -> (s: RegistrySnapshot)
        ensures
            s == with_query(self, duration_us),
    {
        let count: u64 = if self.query_count < u64::MAX {
            self.query_count + 1
        } else {
            self.query_count
        };
        let total: u64 = self.total_query_us.saturating_add(duration_us);
        RegistrySnapshot {
            query_count: count,
            total_query_us: total,
            avg_query_us: total / count,
            max_query_us: if duration_us > self.max_query_us {
                duration_us
            } else {
                self.max_query_us
            },
            ..self
        }
    }
}

/// What a server has done.
#[derive(Debug)]
pub struct MetricsResult {
    /// What it has counted.
    pub registry: RegistrySnapshot,
    /// How many queries were answered from each type.
    pub queries_by_entity: Vec<(String, u64)>,
    /// How many plans can be kept at hand.
    pub cache_capacity: u64,
    /// How many entities there are of each type.
    pub entity_counts: Vec<(String, u64)>,
    /// How many entities there are.
    pub total_entities: u128,
}

/// What a server has done, in mathematical terms.
pub ghost struct MetricsView {
    /// What it has counted.
    pub registry: RegistrySnapshot,
    /// How many queries were answered from each type.
    pub queries_by_entity: Seq<(Seq<char>, u64)>,
    /// How many plans can be kept at hand.
    pub cache_capacity: u64,
    /// How many entities there are of each type.
    pub entity_counts: Seq<(Seq<char>, u64)>,
    /// How many entities there are.
    pub total_entities: nat,
}

impl View for MetricsResult {
    type V = MetricsView;

    open spec fn view(&self) -> MetricsView {
        MetricsView {
            registry: self.registry,
            queries_by_entity: self.queries_by_entity@.map_values(|c: (String, u64)| (c.0@, c.1)),
            cache_capacity: self.cache_capacity,
            entity_counts: self.entity_counts@.map_values(|c: (String, u64)| (c.0@, c.1)),
            total_entities: self.total_entities as nat,
        }
    }
}

/// What a server is in replication.
#[derive(Debug)]
pub enum ReplicationRole {
    /// Others follow it.
    Primary,
    /// It follows another.
    Replica {
        /// The other's address.
        primary_addr: String,
    },
    /// Neither.
    Standalone,
}

/// How replication stands.
#[derive(Debug)]
pub struct ReplicationStatus {
    /// What the server is.
    pub role: ReplicationRole,
    /// The last change.
    pub current_lsn: u64,
    /// How many changes it is behind.
    pub lag_entries: u64,
    /// How many milliseconds it is behind.
    pub lag_ms: u64,
}

/// What is answered.
#[derive(Debug)]
pub enum ResponsePayload {
    /// Nothing.
    Empty,
    /// Entities.
    Query(QueryResult),
    /// What was changed.
    Mutation(MutationResult),
    /// The schema, where one is in force.
    Schema {
        /// Its version.
        version: u64,
        /// The schema.
        schema: Option<SchemaBundle>,
    },
    /// A sign of life.
    Pong,
    /// How a query would be answered.
    Explain(QueryPlan),
    /// What the server has done.
    Metrics(MetricsResult),
    /// A number of entities.
    Aggregate {
        /// Their type.
        entity: String,
        /// The number.
        count: u64,
    },
    /// Changes.
    StreamChanges {
        /// The changes.
        entries: Vec<ChangeLogEntry>,
        /// Where the next ones start.
        next_lsn: u64,
        /// Whether there are more.
        has_more: bool,
    },
    /// How replication stands.
    Replication(ReplicationStatus),
    /// A schema has been put in force.
    SchemaApplied {
        /// Its version.
        version: u64,
    },
}

/// What is answered, in mathematical terms.
pub ghost enum PayloadView {
    /// See [`ResponsePayload::Empty`].
    Empty,
    /// See [`ResponsePayload::Query`].
    Query(ResultView),
    /// See [`ResponsePayload::Mutation`].
    Mutation(MutationResultView),
    /// See [`ResponsePayload::Schema`].
    Schema(u64, Option<SchemaView>),
    /// See [`ResponsePayload::Pong`].
    Pong,
    /// See [`ResponsePayload::Explain`].
    Explain(PlanView),
    /// See [`ResponsePayload::Metrics`].
    Metrics(MetricsView),
    /// See [`ResponsePayload::Aggregate`].
    Aggregate(Seq<char>, u64),
    /// See [`ResponsePayload::StreamChanges`].
    StreamChanges(Seq<ChangeView>, u64, bool),
    /// See [`ResponsePayload::Replication`].
    Replication(ReplicationStatus),
    /// See [`ResponsePayload::SchemaApplied`].
    SchemaApplied(u64),
}

impl View for ResponsePayload {
    type V = PayloadView;

    open spec fn view(&self) -> PayloadView {
        match *self {
            ResponsePayload::Empty => PayloadView::Empty,
            ResponsePayload::Query(r) => PayloadView::Query(r@),
            ResponsePayload::Mutation(r) => PayloadView::Mutation(r@),
            ResponsePayload::Schema { version, schema } => PayloadView::Schema(
                version,
                match schema {
                    Some(s) => Some(s@),
                    None => None,
                },
            ),
            ResponsePayload::Pong => PayloadView::Pong,
            ResponsePayload::Explain(p) => PayloadView::Explain(p@),
            ResponsePayload::Metrics(m) => PayloadView::Metrics(m@),
            ResponsePayload::Aggregate { entity, count } => PayloadView::Aggregate(entity@, count),
            ResponsePayload::StreamChanges { entries, next_lsn, has_more } => PayloadView::StreamChanges(
                changes_view(entries@),
                next_lsn,
                has_more,
            ),
            ResponsePayload::Replication(s) => PayloadView::Replication(s),
            ResponsePayload::SchemaApplied { version } => PayloadView::SchemaApplied(version),
        }
    }
}

/// A response.
#[derive(Debug)]
pub struct Response {
    /// The number of the request.
    pub id: u64,
    /// Whether it was answered.
    pub status: Status,
    /// The answer.
    pub payload: ResponsePayload,
}

/// A response in mathematical terms.
pub ghost struct ResponseView {
    /// The number of the request.
    pub id: u64,
    /// Whether it was answered.
    pub status: StatusView,
    /// The answer.
    pub payload: PayloadView,
}

impl View for Response {
    type V = ResponseView;

    open spec fn view(&self) -> ResponseView {
        ResponseView { id: self.id, status: self.status@, payload: self.payload@ }
    }
}

/// A response that answers.
pub open spec fn ok_view(id: u64, payload: PayloadView) -> ResponseView {
    ResponseView { id, status: StatusView::Success, payload }
}

/// A response that says why there is no answer.
pub open spec fn error_view(id: u64, code: ErrorCode, message: Seq<char>) -> ResponseView {
    ResponseView { id, status: StatusView::Error(code, message), payload: PayloadView::Empty }
}

impl Response {
    /// A response that answers.
    pub fn ok(id: u64, payload: ResponsePayload) -> (r: Response)
        ensures
            r@ == ok_view(id, payload@),
    {
        Response { id, status: Status::Success, payload }
    }

    /// A response that says why there is no answer.
    pub fn error(id: u64, code: ErrorCode, message: String) -> (r: Response)
        ensures
            r@ == error_view(id, code, message@),
    {
        Response { id, status: Status::Error { code, message }, payload: ResponsePayload::Empty }
    }
}

} // verus!
